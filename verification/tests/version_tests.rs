use factorio_browser::records::{CachedServer, NewCachedServer};
use factorio_browser::store::{PersistOutcome, ServerStore};
use factorio_browser::versions::{effective_version, latest_version, sorted_versions};

fn server_with_version(game_id: u64, version: &str) -> CachedServer {
    let mut store = ServerStore::new();
    store
        .replace_all(
            vec![NewCachedServer {
                game_id,
                name: String::new(),
                description: String::new(),
                max_players: 8,
                player_count: 0,
                players: Vec::new(),
                game_time_elapsed: 0,
                has_password: false,
                tags: Vec::new(),
                mod_count: 0,
                game_version: version.to_string(),
                build_version: 0,
                host_address: None,
                headless_server: false,
                cached_at: String::new(),
            }],
            PersistOutcome::Committed,
        )
        .unwrap();
    store.get_all().pop().unwrap()
}

fn snapshot(versions: &[&str]) -> Vec<CachedServer> {
    versions
        .iter()
        .enumerate()
        .map(|(i, v)| server_with_version(i as u64, v))
        .collect()
}

#[test]
fn versions_sort_descending_semantically() {
    let vs = sorted_versions(&snapshot(&["1.1.0", "2.0.1", "1.1.0-rc"]));
    assert_eq!(vs, vec!["2.0.1", "1.1.0", "1.1.0-rc"]);
}

#[test]
fn non_parseable_versions_sort_last() {
    let vs = sorted_versions(&snapshot(&["banana", "1.0.0", "0.17.79", "also-not-semver"]));
    assert_eq!(vs.len(), 4);
    assert_eq!(vs[0], "1.0.0");
    assert_eq!(vs[1], "0.17.79");
    let tail = [vs[2].as_str(), vs[3].as_str()];
    assert!(tail.contains(&"banana"));
    assert!(tail.contains(&"also-not-semver"));
}

#[test]
fn duplicate_versions_collapse() {
    let vs = sorted_versions(&snapshot(&["1.1.0", "1.1.0", "0.18.0", "1.1.0"]));
    assert_eq!(vs, vec!["1.1.0", "0.18.0"]);
}

#[test]
fn numeric_prerelease_identifiers_compare_numerically() {
    let vs = sorted_versions(&snapshot(&["1.0.0-rc.9", "1.0.0-rc.10"]));
    assert_eq!(vs, vec!["1.0.0-rc.10", "1.0.0-rc.9"]);
}

#[test]
fn release_outranks_its_prereleases() {
    let vs = sorted_versions(&snapshot(&["1.0.0-alpha", "1.0.0", "1.0.0-alpha.beta"]));
    assert_eq!(vs[0], "1.0.0");
}

#[test]
fn latest_version_is_the_first() {
    let vs = vec!["2.0.1".to_string(), "1.1.0".to_string()];
    assert_eq!(latest_version(&vs), "2.0.1");
    assert_eq!(latest_version(&Vec::new()), "");
}

#[test]
fn effective_version_handles_the_sentinels() {
    let latest = "2.0.1".to_string();
    assert_eq!(effective_version(&String::new(), &latest), "2.0.1");
    assert_eq!(effective_version(&"all".to_string(), &latest), "");
    assert_eq!(effective_version(&"1.1".to_string(), &latest), "1.1");
}

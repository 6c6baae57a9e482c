//! Data model of the pipeline: server records as the matchmaking API reports
//! them, the cached form the store keeps, and the history samples recording
//! player counts over time.

use crate::text::{parse_u64_or_zero, parsed_u64_or_zero};
use vstd::prelude::*;

verus! {

/// Elapsed game time as the matchmaking API reports it: recent server
/// versions send a number of minutes, older ones send the digits as text.
#[derive(Debug, Clone, PartialEq)]
pub enum GameTime {
    Number(u64),
    Text(String),
}

impl GameTime {
    /// The number of minutes this value stands for: the number itself, or
    /// the parsed text with zero for anything unparsable.
    pub open spec fn value(&self) -> u64 {
        match self {
            GameTime::Number(n) => *n,
            GameTime::Text(s) => parsed_u64_or_zero(s@),
        }
    }

    /// Normalizes the reported game time to minutes.
    pub fn as_u64(&self) -> (r: u64)
        ensures
            r == self.value(),
    {
        match self {
            GameTime::Number(n) => *n,
            GameTime::Text(s) => parse_u64_or_zero(s.as_str()),
        }
    }
}

/// Application version information attached to each reported server.
#[derive(Debug, Clone, PartialEq)]
pub struct ApplicationVersion {
    pub game_version: String,
    pub build_version: u32,
    pub build_mode: String,
    pub platform: String,
}

/// One public server as the matchmaking list endpoint reports it.
#[derive(Debug, Clone, PartialEq)]
pub struct GameServer {
    pub game_id: u64,
    pub name: String,
    pub description: String,
    pub max_players: u32,
    pub players: Vec<String>,
    pub game_time_elapsed: GameTime,
    pub has_password: bool,
    pub tags: Vec<String>,
    pub mod_count: u32,
    pub host_address: Option<String>,
    pub application_version: ApplicationVersion,
    pub has_mods: bool,
    pub headless_server: bool,
    pub server_id: Option<String>,
}

/// Detailed server information from the per-server details endpoint.
#[derive(Debug, Clone)]
pub struct GameDetails {
    pub game_id: u64,
    pub name: String,
    pub description: String,
    pub max_players: u32,
    pub players: Vec<String>,
    pub game_time_elapsed: GameTime,
    pub has_password: bool,
    pub tags: Vec<String>,
    pub application_version: ApplicationVersion,
    pub mods: Vec<ModInfo>,
    pub host_address: Option<String>,
    pub has_mods: bool,
    pub headless_server: bool,
}

/// Mod information for the detailed server view.
#[derive(Debug, Clone, PartialEq)]
pub struct ModInfo {
    pub name: String,
    pub version: String,
}

/// One cached server record: the canonical snapshot form.
#[derive(Debug, Clone, PartialEq)]
pub struct CachedServer {
    pub game_id: u64,
    pub name: String,
    pub description: String,
    pub max_players: u32,
    pub player_count: usize,
    pub players: Vec<String>,
    pub game_time_elapsed: u64,
    pub has_password: bool,
    pub tags: Vec<String>,
    pub mod_count: u32,
    pub game_version: String,
    pub build_version: u32,
    pub host_address: Option<String>,
    pub headless_server: bool,
    pub cached_at: String,
}

/// One persisted history sample: a player count observed for one server at
/// one point in time.
#[derive(Debug, Clone, PartialEq)]
pub struct ServerHistory {
    pub game_id: u64,
    pub player_count: usize,
    pub recorded_at: String,
}

/// Input form of a cached server record, before the store owns it.
#[derive(Debug, Clone, PartialEq)]
pub struct NewCachedServer {
    pub game_id: u64,
    pub name: String,
    pub description: String,
    pub max_players: u32,
    pub player_count: usize,
    pub players: Vec<String>,
    pub game_time_elapsed: u64,
    pub has_password: bool,
    pub tags: Vec<String>,
    pub mod_count: u32,
    pub game_version: String,
    pub build_version: u32,
    pub host_address: Option<String>,
    pub headless_server: bool,
    pub cached_at: String,
}

/// Input form of a history sample.
#[derive(Debug, Clone, PartialEq)]
pub struct NewServerHistory {
    pub game_id: u64,
    pub player_count: usize,
    pub recorded_at: String,
}

/// Query criteria for the serving API's server list.
#[derive(Debug, Clone, PartialEq, Default)]
pub struct ServerFilters {
    pub search: Option<String>,
    pub version: Option<String>,
    pub has_players: Option<bool>,
    pub no_password: Option<bool>,
    pub min_mods: Option<u32>,
    pub limit: Option<usize>,
}

/// One history entry as the serving layer reports it.
#[derive(Debug, Clone, PartialEq)]
pub struct PlayerCountHistory {
    pub player_count: usize,
    pub recorded_at: String,
}

/// One history entry as the details view displays it.
#[derive(Debug, Clone, PartialEq)]
pub struct HistoryEntry {
    pub player_count: usize,
    pub recorded_at: String,
}

/// Mod information as the details view displays it.
#[derive(Debug, Clone, PartialEq)]
pub struct ModEntry {
    pub name: String,
    pub version: String,
}

impl NewCachedServer {
    /// The normalized record a fetched server turns into: the player count is
    /// recomputed from the roster the API sent, never taken on trust, and the
    /// elapsed game time is normalized to minutes.
    pub open spec fn spec_of(server: GameServer, cached_at: String) -> NewCachedServer {
        NewCachedServer {
            game_id: server.game_id,
            name: server.name,
            description: server.description,
            max_players: server.max_players,
            player_count: server.players@.len() as usize,
            players: server.players,
            game_time_elapsed: server.game_time_elapsed.value(),
            has_password: server.has_password,
            tags: server.tags,
            mod_count: server.mod_count,
            game_version: server.application_version.game_version,
            build_version: server.application_version.build_version,
            host_address: server.host_address,
            headless_server: server.headless_server,
            cached_at,
        }
    }

    /// Normalizes one fetched server into its cached form, stamped with the
    /// moment of the refresh.
    pub fn from_server(server: GameServer, cached_at: String) -> (r: NewCachedServer)
        ensures
            r == NewCachedServer::spec_of(server, cached_at),
    {
        let player_count = server.players.len();
        NewCachedServer {
            game_id: server.game_id,
            name: server.name,
            description: server.description,
            max_players: server.max_players,
            player_count,
            players: server.players,
            game_time_elapsed: server.game_time_elapsed.as_u64(),
            has_password: server.has_password,
            tags: server.tags,
            mod_count: server.mod_count,
            game_version: server.application_version.game_version,
            build_version: server.application_version.build_version,
            host_address: server.host_address,
            headless_server: server.headless_server,
            cached_at,
        }
    }
}

impl CachedServer {
    /// The stored record a new record becomes, field for field.
    pub open spec fn spec_of(n: NewCachedServer) -> CachedServer {
        CachedServer {
            game_id: n.game_id,
            name: n.name,
            description: n.description,
            max_players: n.max_players,
            player_count: n.player_count,
            players: n.players,
            game_time_elapsed: n.game_time_elapsed,
            has_password: n.has_password,
            tags: n.tags,
            mod_count: n.mod_count,
            game_version: n.game_version,
            build_version: n.build_version,
            host_address: n.host_address,
            headless_server: n.headless_server,
            cached_at: n.cached_at,
        }
    }

    /// Turns an input record into its stored form.
    pub fn from_new(n: NewCachedServer) -> (r: CachedServer)
        ensures
            r == CachedServer::spec_of(n),
    {
        CachedServer {
            game_id: n.game_id,
            name: n.name,
            description: n.description,
            max_players: n.max_players,
            player_count: n.player_count,
            players: n.players,
            game_time_elapsed: n.game_time_elapsed,
            has_password: n.has_password,
            tags: n.tags,
            mod_count: n.mod_count,
            game_version: n.game_version,
            build_version: n.build_version,
            host_address: n.host_address,
            headless_server: n.headless_server,
            cached_at: n.cached_at,
        }
    }
}

impl ServerHistory {
    /// The stored sample an input sample becomes, field for field.
    pub open spec fn spec_of(n: NewServerHistory) -> ServerHistory {
        ServerHistory { game_id: n.game_id, player_count: n.player_count, recorded_at: n.recorded_at }
    }

    /// Turns an input sample into its stored form.
    pub fn from_new(n: NewServerHistory) -> (r: ServerHistory)
        ensures
            r == ServerHistory::spec_of(n),
    {
        ServerHistory { game_id: n.game_id, player_count: n.player_count, recorded_at: n.recorded_at }
    }
}

/// Spec-level model of a cached server record: every text field as a
/// character sequence.
pub struct CachedServerModel {
    pub game_id: u64,
    pub name: Seq<char>,
    pub description: Seq<char>,
    pub max_players: u32,
    pub player_count: usize,
    pub players: Seq<Seq<char>>,
    pub game_time_elapsed: u64,
    pub has_password: bool,
    pub tags: Seq<Seq<char>>,
    pub mod_count: u32,
    pub game_version: Seq<char>,
    pub build_version: u32,
    pub host_address: Option<Seq<char>>,
    pub headless_server: bool,
    pub cached_at: Seq<char>,
}

impl DeepView for CachedServer {
    type V = CachedServerModel;

    open spec fn deep_view(&self) -> CachedServerModel {
        CachedServerModel {
            game_id: self.game_id,
            name: self.name@,
            description: self.description@,
            max_players: self.max_players,
            player_count: self.player_count,
            players: self.players.deep_view(),
            game_time_elapsed: self.game_time_elapsed,
            has_password: self.has_password,
            tags: self.tags.deep_view(),
            mod_count: self.mod_count,
            game_version: self.game_version@,
            build_version: self.build_version,
            host_address: match self.host_address {
                Some(a) => Some(a@),
                None => None,
            },
            headless_server: self.headless_server,
            cached_at: self.cached_at@,
        }
    }
}

/// Copies a vector of strings, element by element.
pub fn clone_string_vec(v: &Vec<String>) -> (r: Vec<String>)
    ensures
        r@ == v@,
{
    let mut out: Vec<String> = Vec::new();
    let mut i: usize = 0;
    while i < v.len()
        invariant
            0 <= i <= v@.len(),
            out@ == v@.take(i as int),
        decreases v@.len() - i,
    {
        out.push(v[i].clone());
        proof {
            assert(out@ =~= v@.take(i + 1));
        }
        i += 1;
    }
    proof {
        assert(v@.take(i as int) =~= v@);
    }
    out
}

/// Copies an optional string.
pub fn clone_opt_string(v: &Option<String>) -> (r: Option<String>)
    ensures
        r == *v,
{
    match v {
        Some(s) => Some(s.clone()),
        None => None,
    }
}

impl CachedServer {
    /// Copies one record; the copy carries the same model.
    pub fn duplicate(&self) -> (r: CachedServer)
        ensures
            r.deep_view() == self.deep_view(),
            r.game_id == self.game_id,
            r.player_count == self.player_count,
    {
        CachedServer {
            game_id: self.game_id,
            name: self.name.clone(),
            description: self.description.clone(),
            max_players: self.max_players,
            player_count: self.player_count,
            players: clone_string_vec(&self.players),
            game_time_elapsed: self.game_time_elapsed,
            has_password: self.has_password,
            tags: clone_string_vec(&self.tags),
            mod_count: self.mod_count,
            game_version: self.game_version.clone(),
            build_version: self.build_version,
            host_address: clone_opt_string(&self.host_address),
            headless_server: self.headless_server,
            cached_at: self.cached_at.clone(),
        }
    }
}

impl ServerHistory {
    /// Copies one sample; samples hold no nested vectors, so the copy equals
    /// the original outright.
    pub fn duplicate(&self) -> (r: ServerHistory)
        ensures
            r == *self,
    {
        ServerHistory {
            game_id: self.game_id,
            player_count: self.player_count,
            recorded_at: self.recorded_at.clone(),
        }
    }
}

/// Splits an elapsed game time in minutes into whole days, hours and
/// minutes for display.
pub fn game_time_parts(total_minutes: u64) -> (r: (u64, u64, u64))
    ensures
        r.0 == total_minutes / 1440,
        r.1 == (total_minutes % 1440) / 60,
        r.2 == total_minutes % 60,
{
    let days = total_minutes / 1440;
    let hours = (total_minutes % 1440) / 60;
    let minutes = total_minutes % 60;
    (days, hours, minutes)
}

/// The history sample one fetched server yields at a refresh instant.
pub open spec fn spec_sample_of(server: GameServer, now: String) -> NewServerHistory {
    NewServerHistory {
        game_id: server.game_id,
        player_count: server.players@.len() as usize,
        recorded_at: now,
    }
}

/// Derives the history samples of one refresh cycle: one sample per server
/// that currently has players on it, all stamped with the same instant.
/// Servers with an empty roster yield no sample.
pub fn samples_from_servers(servers: &Vec<GameServer>, now: &String) -> (r: Vec<NewServerHistory>)
    ensures
        r@ == servers@.filter(|s: GameServer| s.players@.len() > 0).map_values(
            |s: GameServer| spec_sample_of(s, *now),
        ),
{
    let ghost pred = |s: GameServer| s.players@.len() > 0;
    let ghost f = |s: GameServer| spec_sample_of(s, *now);
    let mut out: Vec<NewServerHistory> = Vec::new();
    let mut i: usize = 0;
    while i < servers.len()
        invariant
            0 <= i <= servers@.len(),
            pred == (|s: GameServer| s.players@.len() > 0),
            f == (|s: GameServer| spec_sample_of(s, *now)),
            out@ == servers@.take(i as int).filter(pred).map_values(f),
        decreases servers@.len() - i,
    {
        let s = &servers[i];
        proof {
            reveal(Seq::filter);
            assert(servers@.take(i + 1).drop_last() =~= servers@.take(i as int));
            assert(servers@.take(i + 1).last() == servers@[i as int]);
        }
        if s.players.len() > 0 {
            out.push(NewServerHistory {
                game_id: s.game_id,
                player_count: s.players.len(),
                recorded_at: now.clone(),
            });
            proof {
                reveal(Seq::filter);
                assert(servers@.take(i + 1).filter(pred) =~= servers@.take(i as int).filter(
                    pred,
                ).push(servers@[i as int]));
                assert(out@ =~= servers@.take(i + 1).filter(pred).map_values(f));
            }
        } else {
            proof {
                reveal(Seq::filter);
                assert(servers@.take(i + 1).filter(pred) =~= servers@.take(i as int).filter(pred));
            }
        }
        i += 1;
    }
    proof {
        assert(servers@.take(i as int) =~= servers@);
    }
    out
}

} // verus!

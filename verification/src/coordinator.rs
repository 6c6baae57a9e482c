//! The refresh coordinator: the state machine behind the periodic refresh
//! cycle, Idle → Fetching → Recording → Caching → CleaningUp → Idle. The
//! adapter around it performs the outside work — the API fetch, the backend
//! transactions, the timer — and reports each outcome as an event; the
//! coordinator makes every decision, and its published snapshot only ever
//! changes when a whole replacement has committed, so readers never observe
//! a partially applied generation. A failed step is surfaced as the current
//! last-error — sanitized, never leaking a URL or credential — and never
//! stops the loop.

use crate::records::{
    samples_from_servers, CachedServer, GameServer, NewCachedServer, NewServerHistory,
    ServerHistory, spec_sample_of,
};
use crate::order::lex_le;
use crate::store::{str_key, DbError, PersistOutcome, ServerStore};
use crate::text::{contains_sub, has_sub};
use vstd::prelude::*;
use vstd::string::StringExecFns;

verus! {

/// The coordinator's place in the refresh cycle.
#[derive(Debug, Clone, Copy, PartialEq, Eq)]
pub enum Phase {
    Idle,
    Fetching,
    Recording,
    Caching,
    CleaningUp,
}

/// What the upstream fetch produced: the full server list, or an error
/// message.
#[derive(Debug)]
pub enum FetchOutcome {
    Success(Vec<GameServer>),
    Failure(String),
}

/// The user-visible form of an error message: no URL — and so no
/// credential-bearing query string — ever passes through. A message that
/// mentions a URL collapses to a fixed notice, one naming the matchmaking
/// endpoint to a more specific one, and anything else to a generic notice.
pub open spec fn sanitized(e: Seq<char>) -> Seq<char> {
    if contains_sub(e, "http://"@) || contains_sub(e, "https://"@) {
        if contains_sub(e, "get-games"@) || contains_sub(e, "multiplayer.factorio.com"@) {
            "Failed to connect to Factorio API. Please try again later."@
        } else {
            "A network error occurred. Please try again later."@
        }
    } else {
        "An error occurred while fetching server data."@
    }
}

/// Sanitizes an error message for display.
pub fn sanitize_error(error: &str) -> (r: String)
    ensures
        r@ == sanitized(error@),
{
    if has_sub(error, "http://") || has_sub(error, "https://") {
        if has_sub(error, "get-games") || has_sub(error, "multiplayer.factorio.com") {
            String::from_str("Failed to connect to Factorio API. Please try again later.")
        } else {
            String::from_str("A network error occurred. Please try again later.")
        }
    } else {
        String::from_str("An error occurred while fetching server data.")
    }
}

/// After a committed refresh the snapshot holds exactly the records of that
/// cycle's fetch: one record per fetched server, nothing left over from any
/// earlier generation, and no duplicate game id — provided the fetch itself
/// reported each server once, which is what a complete-replacement listing
/// means.
pub proof fn lemma_cycle_snapshot_exact(servers: Seq<GameServer>, now: String)
    requires
        forall|i: int, j: int| 0 <= i < j < servers.len() ==> servers[i].game_id
            != servers[j].game_id,
    ensures
        ({
            let records = servers.map_values(|s: GameServer| NewCachedServer::spec_of(s, now));
            let converted = records.map_values(|x: NewCachedServer| CachedServer::spec_of(x));
            let installed = crate::order::sort_spec(converted);
            &&& installed.len() == servers.len()
            &&& installed.to_multiset() == converted.to_multiset()
            &&& crate::store::unique_ids(installed)
        }),
{
    let records = servers.map_values(|s: GameServer| NewCachedServer::spec_of(s, now));
    assert forall|i: int, j: int| 0 <= i < j < records.len() implies records[i].game_id
        != records[j].game_id by {
        assert(records[i] == NewCachedServer::spec_of(servers[i], now));
        assert(records[j] == NewCachedServer::spec_of(servers[j], now));
    }
    crate::store::lemma_snapshot_exact(records);
}

/// The coordinator: owns the store, the published read snapshot and the
/// last-error state, and walks the refresh cycle phase by phase.
pub struct RefreshCoordinator {
    phase: Phase,
    store: ServerStore,
    snapshot: Vec<CachedServer>,
    last_error: Option<String>,
    pending_records: Vec<NewCachedServer>,
    pending_samples: Vec<NewServerHistory>,
}

impl RefreshCoordinator {
    /// The current phase.
    pub closed spec fn phase(&self) -> Phase {
        self.phase
    }

    /// The store's canonical snapshot.
    pub closed spec fn store_snapshot(&self) -> Seq<CachedServer> {
        self.store.snapshot()
    }

    /// The store's history log.
    pub closed spec fn store_log(&self) -> Seq<ServerHistory> {
        self.store.log()
    }

    /// The published read snapshot.
    pub closed spec fn published(&self) -> Seq<CachedServer> {
        self.snapshot@
    }

    /// The current user-visible error.
    pub closed spec fn last_err(&self) -> Option<String> {
        self.last_error
    }

    /// The records of the current cycle, waiting to be cached.
    pub closed spec fn pending(&self) -> Seq<NewCachedServer> {
        self.pending_records@
    }

    /// The history samples of the current cycle, waiting to be recorded.
    pub closed spec fn pending_history(&self) -> Seq<NewServerHistory> {
        self.pending_samples@
    }

    /// Well-formed coordinator: the store it owns is well-formed.
    pub closed spec fn wf(&self) -> bool {
        self.store.wf()
    }

    /// A fresh coordinator over an empty store: idle, nothing published,
    /// no error.
    pub fn new() -> (c: RefreshCoordinator)
        ensures
            c.wf(),
            c.phase() == Phase::Idle,
            c.store_snapshot() == Seq::<CachedServer>::empty(),
            c.store_log() == Seq::<ServerHistory>::empty(),
            c.published() == Seq::<CachedServer>::empty(),
            c.last_err() is None,
    {
        let c = RefreshCoordinator {
            phase: Phase::Idle,
            store: ServerStore::new(),
            snapshot: Vec::new(),
            last_error: None,
            pending_records: Vec::new(),
            pending_samples: Vec::new(),
        };
        proof {
            assert(c.snapshot@ =~= Seq::<CachedServer>::empty());
        }
        c
    }

    /// Begins a refresh cycle: the next step is the upstream fetch.
    pub fn start_cycle(&mut self)
        requires
            old(self).phase() == Phase::Idle,
        ensures
            final(self).phase() == Phase::Fetching,
            final(self).wf() == old(self).wf(),
            final(self).store_snapshot() == old(self).store_snapshot(),
            final(self).store_log() == old(self).store_log(),
            final(self).published() == old(self).published(),
            final(self).last_err() == old(self).last_err(),
    {
        self.phase = Phase::Fetching;
    }

    /// Takes the fetch outcome. A successful fetch is normalized into the
    /// cycle's pending records — player counts recomputed from the roster —
    /// and pending history samples, one per server with players, all
    /// stamped `now`; the cycle continues with Recording. A failed fetch
    /// surfaces its sanitized message as the last error and skips straight
    /// to CleaningUp; nothing else changes either way.
    pub fn on_fetch(&mut self, outcome: FetchOutcome, now: &String)
        requires
            old(self).phase() == Phase::Fetching,
        ensures
            final(self).wf() == old(self).wf(),
            final(self).store_snapshot() == old(self).store_snapshot(),
            final(self).store_log() == old(self).store_log(),
            final(self).published() == old(self).published(),
            match outcome {
                FetchOutcome::Success(servers) => {
                    &&& final(self).phase() == Phase::Recording
                    &&& final(self).pending() == servers@.map_values(
                        |s: GameServer| NewCachedServer::spec_of(s, *now),
                    )
                    &&& final(self).pending_history() == servers@.filter(
                        |s: GameServer| s.players@.len() > 0,
                    ).map_values(|s: GameServer| spec_sample_of(s, *now))
                    &&& final(self).last_err() == old(self).last_err()
                },
                FetchOutcome::Failure(msg) => {
                    &&& final(self).phase() == Phase::CleaningUp
                    &&& final(self).last_err() matches Some(e) && e@ == sanitized(msg@)
                },
            },
    {
        match outcome {
            FetchOutcome::Success(servers) => {
                self.pending_samples = samples_from_servers(&servers, now);
                let ghost servers_seq = servers@;
                let mut records: Vec<NewCachedServer> = Vec::new();
                let mut rest = servers;
                let total = rest.len();
                let mut i: usize = 0;
                while rest.len() > 0
                    invariant
                        0 <= i <= servers_seq.len(),
                        total == servers_seq.len(),
                        rest@ == servers_seq.skip(i as int),
                        i + rest@.len() == total,
                        records@ == servers_seq.take(i as int).map_values(
                            |s: GameServer| NewCachedServer::spec_of(s, *now),
                        ),
                    decreases rest@.len(),
                {
                    let s = rest.remove(0);
                    records.push(NewCachedServer::from_server(s, now.clone()));
                    proof {
                        assert(rest@ =~= servers_seq.skip(i + 1));
                        assert(servers_seq.take(i + 1).drop_last() =~= servers_seq.take(i as int));
                        assert(records@ =~= servers_seq.take(i + 1).map_values(
                            |s: GameServer| NewCachedServer::spec_of(s, *now),
                        ));
                    }
                    i += 1;
                }
                proof {
                    assert(servers_seq.take(i as int) =~= servers_seq);
                }
                self.pending_records = records;
                self.phase = Phase::Recording;
            },
            FetchOutcome::Failure(msg) => {
                self.last_error = Some(sanitize_error(msg.as_str()));
                self.phase = Phase::CleaningUp;
            },
        }
    }

    /// Records the cycle's history samples: the batch goes to the backend
    /// whole, samples without players dropped first. A failure is surfaced
    /// as the last error but the cycle continues — the next step is Caching
    /// either way — and the store's snapshot is never touched.
    pub fn record_step(&mut self, backend: PersistOutcome) -> (r: Result<usize, DbError>)
        requires
            old(self).phase() == Phase::Recording,
        ensures
            final(self).phase() == Phase::Caching,
            final(self).wf() == old(self).wf(),
            final(self).store_snapshot() == old(self).store_snapshot(),
            final(self).published() == old(self).published(),
            final(self).pending() == old(self).pending(),
            ({
                let kept = old(self).pending_history().filter(
                    |s: NewServerHistory| s.player_count > 0,
                ).map_values(|s: NewServerHistory| ServerHistory::spec_of(s));
                match r {
                    Ok(n) => {
                        &&& n == kept.len()
                        &&& final(self).store_log() == old(self).store_log() + kept
                        &&& (kept.len() == 0 || backend is Committed)
                        &&& final(self).last_err() == old(self).last_err()
                    },
                    Err(e) => {
                        &&& final(self).store_log() == old(self).store_log()
                        &&& kept.len() > 0
                        &&& backend is Aborted
                        &&& e is Query
                        &&& final(self).last_err() matches Some(m) && m@
                            == "Failed to record history."@
                    },
                }
            }),
    {
        let mut samples: Vec<NewServerHistory> = Vec::new();
        core::mem::swap(&mut samples, &mut self.pending_samples);
        let r = self.store.append_history(samples, backend);
        if r.is_err() {
            self.last_error = Some(String::from_str("Failed to record history."));
        }
        self.phase = Phase::Caching;
        r
    }

    /// Caches the cycle's records: the whole snapshot is replaced
    /// atomically, or not at all. Only after a committed replacement is the
    /// published read snapshot swapped — to exactly the new generation,
    /// ordered by player count — and the last error cleared. On any failure
    /// the store and the published snapshot keep the previous committed
    /// generation, and the failure is surfaced as the last error. The next
    /// step is CleaningUp either way.
    pub fn cache_step(&mut self, backend: PersistOutcome) -> (r: Result<usize, DbError>)
        requires
            old(self).phase() == Phase::Caching,
            old(self).wf(),
        ensures
            final(self).phase() == Phase::CleaningUp,
            final(self).wf(),
            final(self).store_log() == old(self).store_log(),
            match r {
                Ok(n) => {
                    &&& n == old(self).pending().len()
                    &&& crate::store::unique_new_ids(old(self).pending())
                    &&& backend is Committed
                    &&& final(self).store_snapshot() == crate::order::sort_spec(
                        old(self).pending().map_values(
                            |x: NewCachedServer| CachedServer::spec_of(x),
                        ),
                    )
                    &&& final(self).published().map_values(|c: CachedServer| c.deep_view())
                        == final(self).store_snapshot().map_values(
                        |c: CachedServer| c.deep_view(),
                    )
                    &&& final(self).last_err() is None
                },
                Err(e) => {
                    &&& final(self).store_snapshot() == old(self).store_snapshot()
                    &&& final(self).published() == old(self).published()
                    &&& (!crate::store::unique_new_ids(old(self).pending()) || backend is Aborted)
                    &&& e is Query
                    &&& final(self).last_err() matches Some(m) && m@
                        == "Failed to update server cache."@
                },
            },
            r is Ok <==> (crate::store::unique_new_ids(old(self).pending())
                && backend is Committed),
    {
        let mut records: Vec<NewCachedServer> = Vec::new();
        core::mem::swap(&mut records, &mut self.pending_records);
        let r = self.store.replace_all(records, backend);
        match &r {
            Ok(_) => {
                self.snapshot = self.store.get_all();
                self.last_error = None;
            },
            Err(_) => {
                self.last_error = Some(String::from_str("Failed to update server cache."));
            },
        }
        self.phase = Phase::CleaningUp;
        r
    }

    /// Ends the cycle by purging history older than the retention cutoff;
    /// the coordinator returns to Idle for the next tick. Purging again
    /// with the same cutoff would change nothing more.
    pub fn cleanup_step(&mut self, cutoff: &String)
        requires
            old(self).phase() == Phase::CleaningUp,
        ensures
            final(self).phase() == Phase::Idle,
            final(self).wf() == old(self).wf(),
            final(self).store_snapshot() == old(self).store_snapshot(),
            final(self).published() == old(self).published(),
            final(self).last_err() == old(self).last_err(),
            final(self).store_log() == old(self).store_log().filter(
                |s: ServerHistory| lex_le(str_key(cutoff@), str_key(s.recorded_at@)),
            ),
    {
        self.store.purge_history_older_than(cutoff);
        self.phase = Phase::Idle;
    }

    /// The published snapshot, for readers: the last successfully
    /// committed generation.
    pub fn current_snapshot(&self) -> (r: &Vec<CachedServer>)
        ensures
            r@ == self.published(),
    {
        &self.snapshot
    }

    /// The current user-visible error, if any.
    pub fn current_error(&self) -> (r: &Option<String>)
        ensures
            *r == self.last_err(),
    {
        &self.last_error
    }

    /// Looks a server up in the store by its game id.
    pub fn lookup(&self, game_id: u64) -> (r: Option<CachedServer>)
        ensures
            match r {
                Some(c) => exists|i: int|
                    0 <= i < self.store_snapshot().len() && self.store_snapshot()[i].game_id
                        == game_id && c.deep_view() == #[trigger] self.store_snapshot()[i].deep_view(),
                None => forall|i: int|
                    0 <= i < self.store_snapshot().len() ==> self.store_snapshot()[i].game_id
                        != game_id,
            },
    {
        self.store.get_by_game_id(game_id)
    }

    /// The stored history of one server, newest first, capped to the
    /// requested window.
    pub fn history(&self, game_id: u64, hours: u32) -> (r: Vec<ServerHistory>)
        ensures
            ({
                let matching = crate::order::sort_spec(
                    self.store_log().filter(|s: ServerHistory| s.game_id == game_id),
                );
                let cap = hours * 60;
                r@ == if matching.len() <= cap {
                    matching
                } else {
                    matching.take(cap as int)
                }
            }),
    {
        self.store.get_history(game_id, hours)
    }
}

} // verus!

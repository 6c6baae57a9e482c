//! The server store: owns the canonical snapshot of server records and the
//! rolling history of player counts. The snapshot is replaced atomically,
//! all or nothing, once per refresh cycle; history samples are appended in
//! batches and purged once they fall out of the retention window.
//!
//! The store is the in-memory image of a transactional persistence backend.
//! The adapter that talks to the backend reports each transaction's verdict
//! as a [`PersistOutcome`]; the store changes state only on a committed
//! verdict, so a transaction that aborts partway leaves the previously
//! committed snapshot untouched.

use crate::order::{lex_le, lemma_lex_le_first_diff, sort_by_key, sort_spec, SortKey};
use crate::records::{CachedServer, NewCachedServer, NewServerHistory, PlayerCountHistory, ServerHistory};
use vstd::prelude::*;

verus! {

/// Error type for store operations.
#[derive(Debug, Clone, PartialEq)]
pub enum DbError {
    Connection(String),
    Query(String),
}

/// Verdict of the persistence backend on one transaction: either the whole
/// batch committed, or the transaction aborted and changed nothing.
#[derive(Debug, Clone, PartialEq)]
pub enum PersistOutcome {
    Committed,
    Aborted(String),
}

/// No two records carry the same game id.
pub open spec fn unique_ids(s: Seq<CachedServer>) -> bool {
    forall|i: int, j: int| 0 <= i < j < s.len() ==> s[i].game_id != s[j].game_id
}

/// No two input records carry the same game id.
pub open spec fn unique_new_ids(s: Seq<NewCachedServer>) -> bool {
    forall|i: int, j: int| 0 <= i < j < s.len() ==> s[i].game_id != s[j].game_id
}

/// Records ordered by player count, highest first.
pub open spec fn count_sorted(s: Seq<CachedServer>) -> bool {
    forall|i: int, j: int| 0 <= i <= j < s.len() ==> s[i].player_count >= s[j].player_count
}

impl SortKey for CachedServer {
    /// Records sort by player count descending.
    open spec fn sort_key(&self) -> Seq<int> {
        seq![-(self.player_count as int)]
    }

    fn le(&self, other: &Self) -> (r: bool) {
        proof {
            assert(self.sort_key().skip(1) =~= Seq::<int>::empty());
            assert(other.sort_key().skip(1) =~= Seq::<int>::empty());
            assert(lex_le(Seq::<int>::empty(), Seq::<int>::empty()));
        }
        self.player_count >= other.player_count
    }
}

/// Ascending key of a string: its characters as code points.
pub open spec fn str_key(s: Seq<char>) -> Seq<int> {
    s.map_values(|c: char| c as int)
}

/// Descending key of a string: negated code points with a high terminator,
/// so that lexicographically later strings sort first and an extension
/// sorts before its prefix.
pub open spec fn desc_str_key(s: Seq<char>) -> Seq<int> {
    s.map_values(|c: char| -(c as int)).push(1)
}

impl SortKey for ServerHistory {
    /// Samples sort by recording time descending: newest first.
    open spec fn sort_key(&self) -> Seq<int> {
        desc_str_key(self.recorded_at@)
    }

    fn le(&self, other: &Self) -> (r: bool)
        ensures
            r == lex_le(self.sort_key(), other.sort_key()),
    {
        str_desc_le(self.recorded_at.as_str(), other.recorded_at.as_str())
    }
}

/// Decides `lex_le(desc_str_key(a), desc_str_key(b))`: whether `a` may come
/// before `b` when strings are ordered lexicographically descending.
pub fn str_desc_le(a: &str, b: &str) -> (r: bool)
    ensures
        r == lex_le(desc_str_key(a@), desc_str_key(b@)),
{
    let al = a.unicode_len();
    let bl = b.unicode_len();
    let ghost ka = desc_str_key(a@);
    let ghost kb = desc_str_key(b@);
    let mut i: usize = 0;
    loop
        invariant
            0 <= i <= al,
            i <= bl,
            al == a@.len(),
            bl == b@.len(),
            ka == desc_str_key(a@),
            kb == desc_str_key(b@),
            forall|k: int| 0 <= k < i ==> a@[k] == b@[k],
        decreases al - i,
    {
        if i == al && i == bl {
            proof {
                assert(ka =~= kb);
                crate::order::lemma_lex_le_refl(ka);
            }
            return true;
        }
        if i == al {
            // `a` ends first: `b` extends it, and the longer string comes
            // first in descending order.
            let cb = b.get_char(i);
            proof {
                assert(forall|k: int| 0 <= k < i ==> ka[k] == kb[k]);
                assert(ka[i as int] == 1);
                assert(kb[i as int] == -(cb as int));
                assert(cb as int >= 0);
                lemma_lex_le_first_diff(ka, kb, i as int);
            }
            return false;
        }
        if i == bl {
            let ca = a.get_char(i);
            proof {
                assert(forall|k: int| 0 <= k < i ==> ka[k] == kb[k]);
                assert(kb[i as int] == 1);
                assert(ka[i as int] == -(ca as int));
                assert(ca as int >= 0);
                lemma_lex_le_first_diff(ka, kb, i as int);
            }
            return true;
        }
        let ca = a.get_char(i);
        let cb = b.get_char(i);
        if ca != cb {
            proof {
                assert(forall|k: int| 0 <= k < i ==> ka[k] == kb[k]);
                assert(ka[i as int] == -(ca as int));
                assert(kb[i as int] == -(cb as int));
                lemma_lex_le_first_diff(ka, kb, i as int);
            }
            return ca > cb;
        }
        i += 1;
    }
}

/// Decides `lex_le(str_key(a), str_key(b))`: plain ascending lexicographic
/// string order.
pub fn str_asc_le(a: &str, b: &str) -> (r: bool)
    ensures
        r == lex_le(str_key(a@), str_key(b@)),
{
    let al = a.unicode_len();
    let bl = b.unicode_len();
    let ghost ka = str_key(a@);
    let ghost kb = str_key(b@);
    let mut i: usize = 0;
    loop
        invariant
            0 <= i <= al,
            i <= bl,
            al == a@.len(),
            bl == b@.len(),
            ka == str_key(a@),
            kb == str_key(b@),
            forall|k: int| 0 <= k < i ==> a@[k] == b@[k],
        decreases al - i,
    {
        if i == al {
            proof {
                assert(forall|k: int| 0 <= k < i ==> ka[k] == kb[k]);
                lemma_lex_le_first_diff(ka, kb, i as int);
            }
            return true;
        }
        if i == bl {
            proof {
                assert(forall|k: int| 0 <= k < i ==> ka[k] == kb[k]);
                lemma_lex_le_first_diff(ka, kb, i as int);
            }
            return false;
        }
        let ca = a.get_char(i);
        let cb = b.get_char(i);
        if ca != cb {
            proof {
                assert(forall|k: int| 0 <= k < i ==> ka[k] == kb[k]);
                assert(ka[i as int] == ca as int);
                assert(kb[i as int] == cb as int);
                lemma_lex_le_first_diff(ka, kb, i as int);
            }
            return ca < cb;
        }
        i += 1;
    }
}

/// The canonical store of server records and history samples.
pub struct ServerStore {
    servers: Vec<CachedServer>,
    history: Vec<ServerHistory>,
}

impl ServerStore {
    /// The current snapshot, ordered by player count descending.
    pub closed spec fn snapshot(&self) -> Seq<CachedServer> {
        self.servers@
    }

    /// The history log, in insertion order.
    pub closed spec fn log(&self) -> Seq<ServerHistory> {
        self.history@
    }

    /// Well-formed store: the snapshot has unique game ids and is kept
    /// ordered by player count descending.
    pub open spec fn wf(&self) -> bool {
        unique_ids(self.snapshot()) && count_sorted(self.snapshot())
    }

    /// An empty store.
    pub fn new() -> (s: ServerStore)
        ensures
            s.snapshot() == Seq::<CachedServer>::empty(),
            s.log() == Seq::<ServerHistory>::empty(),
            s.wf(),
    {
        let s = ServerStore { servers: Vec::new(), history: Vec::new() };
        proof {
            assert(s.snapshot() =~= Seq::<CachedServer>::empty());
            assert(s.log() =~= Seq::<ServerHistory>::empty());
        }
        s
    }

    /// Atomically replaces the whole snapshot with `records`, or changes
    /// nothing. Succeeds exactly when the records carry no duplicate game id
    /// and the backend committed; the new snapshot is then exactly those
    /// records, sorted by player count descending. On any failure the
    /// previously committed snapshot stays authoritative. The history log is
    /// never touched.
    pub fn replace_all(&mut self, records: Vec<NewCachedServer>, backend: PersistOutcome) -> (r:
        Result<usize, DbError>)
        requires
            old(self).wf(),
        ensures
            final(self).log() == old(self).log(),
            match r {
                Ok(n) => {
                    &&& n == records@.len()
                    &&& unique_new_ids(records@)
                    &&& backend is Committed
                    &&& final(self).snapshot() == sort_spec(
                        records@.map_values(|x: NewCachedServer| CachedServer::spec_of(x)),
                    )
                    &&& final(self).wf()
                },
                Err(e) => {
                    &&& final(self).snapshot() == old(self).snapshot()
                    &&& (!unique_new_ids(records@) || backend is Aborted)
                    &&& e is Query
                },
            },
            r is Ok <==> (unique_new_ids(records@) && backend is Committed),
    {
        let n = records.len();
        // The backend's unique index refuses a batch with a repeated id.
        let mut i: usize = 0;
        while i < n
            invariant
                0 <= i <= n,
                n == records@.len(),
                forall|p: int, q: int| 0 <= p < q < i ==> records@[p].game_id != records@[q].game_id,
            decreases n - i,
        {
            let mut j: usize = 0;
            while j < i
                invariant
                    0 <= j <= i < n,
                    n == records@.len(),
                    forall|q: int| 0 <= q < j ==> records@[q].game_id != records@[i as int].game_id,
                decreases i - j,
            {
                if records[j].game_id == records[i].game_id {
                    return Err(DbError::Query(String::from_str(
                        "insert into servers aborted: duplicate game_id",
                    )));
                }
                j += 1;
            }
            i += 1;
        }
        assert(unique_new_ids(records@));
        match backend {
            PersistOutcome::Committed => {
                let ghost rec_seq = records@;
                let mut converted: Vec<CachedServer> = Vec::new();
                let mut rest = records;
                let mut k: usize = 0;
                while rest.len() > 0
                    invariant
                        0 <= k <= rec_seq.len(),
                        n == rec_seq.len(),
                        rest@ == rec_seq.skip(k as int),
                        k + rest@.len() == rec_seq.len(),
                        converted@ == rec_seq.take(k as int).map_values(
                            |x: NewCachedServer| CachedServer::spec_of(x),
                        ),
                    decreases rest@.len(),
                {
                    let x = rest.remove(0);
                    converted.push(CachedServer::from_new(x));
                    proof {
                        assert(rest@ =~= rec_seq.skip(k + 1));
                        assert(rec_seq.take(k + 1).drop_last() =~= rec_seq.take(k as int));
                        assert(converted@ =~= rec_seq.take(k + 1).map_values(
                            |x: NewCachedServer| CachedServer::spec_of(x),
                        ));
                    }
                    k += 1;
                }
                proof {
                    assert(rec_seq.take(k as int) =~= rec_seq);
                }
                let sorted = sort_by_key(converted);
                proof {
                    let mapped = rec_seq.map_values(|x: NewCachedServer| CachedServer::spec_of(x));
                    lemma_sorted_unique_ids(mapped, rec_seq);
                    crate::order::lemma_sort_spec_sorted(mapped);
                    assert forall|p: int, q: int|
                        0 <= p <= q < sort_spec(mapped).len() implies sort_spec(mapped)[p].player_count
                        >= sort_spec(mapped)[q].player_count by {
                        assert(lex_le(sort_spec(mapped)[p].sort_key(), sort_spec(mapped)[q].sort_key()));
                        assert(sort_spec(mapped)[p].sort_key()[0] == -(
                        sort_spec(mapped)[p].player_count as int));
                    }
                }
                self.servers = sorted;
                Ok(n)
            },
            PersistOutcome::Aborted(msg) => Err(DbError::Query(msg)),
        }
    }

    /// Appends the history samples of one cycle: only samples with a player
    /// count above zero are kept; an input that is empty after that filter is
    /// a no-op that consults no backend. Otherwise the whole kept batch is
    /// appended exactly when the backend committed; an aborted transaction
    /// changes nothing. The snapshot is never touched.
    pub fn append_history(&mut self, samples: Vec<NewServerHistory>, backend: PersistOutcome) -> (r:
        Result<usize, DbError>)
        ensures
            final(self).snapshot() == old(self).snapshot(),
            ({
                let kept = samples@.filter(|s: NewServerHistory| s.player_count > 0).map_values(
                    |s: NewServerHistory| ServerHistory::spec_of(s),
                );
                match r {
                    Ok(n) => {
                        &&& n == kept.len()
                        &&& final(self).log() == old(self).log() + kept
                        &&& (kept.len() == 0 || backend is Committed)
                    },
                    Err(e) => {
                        &&& final(self).log() == old(self).log()
                        &&& kept.len() > 0
                        &&& backend is Aborted
                        &&& e is Query
                    },
                }
            }),
    {
        let ghost pred = |s: NewServerHistory| s.player_count > 0;
        let ghost f = |s: NewServerHistory| ServerHistory::spec_of(s);
        let ghost sam_seq = samples@;
        let total = samples.len();
        let mut kept: Vec<ServerHistory> = Vec::new();
        let mut rest = samples;
        let mut k: usize = 0;
        while rest.len() > 0
            invariant
                0 <= k <= sam_seq.len(),
                total == sam_seq.len(),
                rest@ == sam_seq.skip(k as int),
                k + rest@.len() == sam_seq.len(),
                kept@ == sam_seq.take(k as int).filter(pred).map_values(f),
                pred == (|s: NewServerHistory| s.player_count > 0),
                f == (|s: NewServerHistory| ServerHistory::spec_of(s)),
            decreases rest@.len(),
        {
            let x = rest.remove(0);
            proof {
                reveal(Seq::filter);
                assert(rest@ =~= sam_seq.skip(k + 1));
                assert(sam_seq.take(k + 1).drop_last() =~= sam_seq.take(k as int));
                assert(sam_seq.take(k + 1).last() == sam_seq[k as int]);
            }
            if x.player_count > 0 {
                kept.push(ServerHistory::from_new(x));
                proof {
                    assert(sam_seq.take(k + 1).filter(pred) =~= sam_seq.take(k as int).filter(
                        pred,
                    ).push(sam_seq[k as int]));
                    assert(kept@ =~= sam_seq.take(k + 1).filter(pred).map_values(f));
                }
            } else {
                proof {
                    assert(sam_seq.take(k + 1).filter(pred) =~= sam_seq.take(k as int).filter(pred));
                }
            }
            k += 1;
        }
        proof {
            assert(sam_seq.take(k as int) =~= sam_seq);
        }
        if kept.len() == 0 {
            proof {
                assert(final(self).log() =~= old(self).log() + kept@);
            }
            return Ok(0);
        }
        match backend {
            PersistOutcome::Committed => {
                let n = kept.len();
                let mut kept = kept;
                self.history.append(&mut kept);
                Ok(n)
            },
            PersistOutcome::Aborted(msg) => Err(DbError::Query(msg)),
        }
    }

    /// The whole snapshot, ordered by player count descending; the store
    /// keeps the snapshot in that order, so the result mirrors it record for
    /// record.
    pub fn get_all(&self) -> (r: Vec<CachedServer>)
        ensures
            r@.map_values(|c: CachedServer| c.deep_view()) == self.snapshot().map_values(
                |c: CachedServer| c.deep_view(),
            ),
            r@.len() == self.snapshot().len(),
            forall|i: int| 0 <= i < r@.len() ==> r@[i].game_id == self.snapshot()[i].game_id
                && r@[i].player_count == self.snapshot()[i].player_count,
    {
        let mut out: Vec<CachedServer> = Vec::new();
        let mut i: usize = 0;
        while i < self.servers.len()
            invariant
                0 <= i <= self.servers@.len(),
                out@.len() == i,
                forall|k: int| 0 <= k < i ==> #[trigger] out@[k].deep_view()
                    == self.servers@[k].deep_view() && out@[k].game_id == self.servers@[k].game_id
                    && out@[k].player_count == self.servers@[k].player_count,
            decreases self.servers@.len() - i,
        {
            let copy = self.servers[i].duplicate();
            out.push(copy);
            proof {
                assert forall|k: int| 0 <= k < i + 1 implies #[trigger] out@[k].deep_view()
                    == self.servers@[k].deep_view() && out@[k].game_id == self.servers@[k].game_id
                    && out@[k].player_count == self.servers@[k].player_count by {
                    if k < i {
                        assert(out@[k] == out@.subrange(0, i as int)[k]);
                    }
                }
            }
            i += 1;
        }
        proof {
            assert(out@.map_values(|c: CachedServer| c.deep_view()) =~= self.snapshot().map_values(
                |c: CachedServer| c.deep_view(),
            ));
            assert forall|k: int| 0 <= k < out@.len() implies out@[k].game_id
                == self.snapshot()[k].game_id && out@[k].player_count
                == self.snapshot()[k].player_count by {
                assert(out@[k].deep_view() == self.servers@[k].deep_view());
            }
        }
        out
    }

    /// Looks one server up by its game id. Returns the record exactly when
    /// the snapshot holds one with that id; not finding one is a normal
    /// outcome, not an error.
    pub fn get_by_game_id(&self, game_id: u64) -> (r: Option<CachedServer>)
        ensures
            match r {
                Some(c) => exists|i: int|
                    0 <= i < self.snapshot().len() && self.snapshot()[i].game_id == game_id
                        && c.deep_view() == #[trigger] self.snapshot()[i].deep_view(),
                None => forall|i: int|
                    0 <= i < self.snapshot().len() ==> self.snapshot()[i].game_id != game_id,
            },
    {
        let mut i: usize = 0;
        while i < self.servers.len()
            invariant
                0 <= i <= self.servers@.len(),
                forall|k: int| 0 <= k < i ==> self.servers@[k].game_id != game_id,
            decreases self.servers@.len() - i,
        {
            if self.servers[i].game_id == game_id {
                return Some(self.servers[i].duplicate());
            }
            i += 1;
        }
        None
    }

    /// The history of one server: its samples ordered by recording time
    /// descending (newest first), capped at one expected sample per minute
    /// over the requested window.
    pub fn get_history(&self, game_id: u64, hours: u32) -> (r: Vec<ServerHistory>)
        ensures
            ({
                let matching = sort_spec(
                    self.log().filter(|s: ServerHistory| s.game_id == game_id),
                );
                let cap = hours * 60;
                r@ == if matching.len() <= cap {
                    matching
                } else {
                    matching.take(cap as int)
                }
            }),
    {
        let ghost pred = |s: ServerHistory| s.game_id == game_id;
        let mut matching: Vec<ServerHistory> = Vec::new();
        let mut i: usize = 0;
        while i < self.history.len()
            invariant
                0 <= i <= self.history@.len(),
                matching@ == self.history@.take(i as int).filter(pred),
                pred == (|s: ServerHistory| s.game_id == game_id),
            decreases self.history@.len() - i,
        {
            proof {
                reveal(Seq::filter);
                assert(self.history@.take(i + 1).drop_last() =~= self.history@.take(i as int));
                assert(self.history@.take(i + 1).last() == self.history@[i as int]);
            }
            if self.history[i].game_id == game_id {
                matching.push(self.history[i].duplicate());
                proof {
                    assert(self.history@.take(i + 1).filter(pred) =~= self.history@.take(
                        i as int,
                    ).filter(pred).push(self.history@[i as int]));
                }
            } else {
                proof {
                    assert(self.history@.take(i + 1).filter(pred) =~= self.history@.take(
                        i as int,
                    ).filter(pred));
                }
            }
            i += 1;
        }
        proof {
            assert(self.history@.take(i as int) =~= self.history@);
        }
        let mut sorted = sort_by_key(matching);
        let cap_wide: u64 = hours as u64 * 60;
        if (sorted.len() as u64) > cap_wide {
            let cap = cap_wide as usize;
            sorted.truncate(cap);
        }
        sorted
    }

    /// The stamp of the last committed refresh: the `cached_at` of any
    /// record of the snapshot — every record of one generation carries the
    /// same stamp — or nothing while the store is empty.
    pub fn get_last_cache_time(&self) -> (r: Option<String>)
        ensures
            match r {
                Some(t) => self.snapshot().len() > 0 && t@ == self.snapshot()[0].cached_at@,
                None => self.snapshot().len() == 0,
            },
    {
        if self.servers.len() > 0 {
            Some(self.servers[0].cached_at.clone())
        } else {
            None
        }
    }

    /// Deletes every sample recorded before `cutoff` (timestamps compare as
    /// strings, which for one fixed timestamp format is time order); samples
    /// at or after the cutoff stay, in order. Purging twice with the same
    /// cutoff is the same as purging once.
    pub fn purge_history_older_than(&mut self, cutoff: &String)
        ensures
            final(self).snapshot() == old(self).snapshot(),
            final(self).log() == old(self).log().filter(
                |s: ServerHistory| lex_le(str_key(cutoff@), str_key(s.recorded_at@)),
            ),
    {
        let ghost pred = |s: ServerHistory| lex_le(str_key(cutoff@), str_key(s.recorded_at@));
        let ghost log0 = self.history@;
        let mut old_log: Vec<ServerHistory> = Vec::new();
        core::mem::swap(&mut old_log, &mut self.history);
        let total = old_log.len();
        let mut k: usize = 0;
        while old_log.len() > 0
            invariant
                0 <= k <= log0.len(),
                total == log0.len(),
                old_log@ == log0.skip(k as int),
                k + old_log@.len() == log0.len(),
                self.history@ == log0.take(k as int).filter(pred),
                self.servers@ == old(self).servers@,
                pred == (|s: ServerHistory| lex_le(str_key(cutoff@), str_key(s.recorded_at@))),
            decreases old_log@.len(),
        {
            let x = old_log.remove(0);
            proof {
                reveal(Seq::filter);
                assert(old_log@ =~= log0.skip(k + 1));
                assert(log0.take(k + 1).drop_last() =~= log0.take(k as int));
                assert(log0.take(k + 1).last() == log0[k as int]);
            }
            if str_asc_le(cutoff.as_str(), x.recorded_at.as_str()) {
                self.history.push(x);
                proof {
                    assert(log0.take(k + 1).filter(pred) =~= log0.take(k as int).filter(pred).push(
                        log0[k as int],
                    ));
                }
            } else {
                proof {
                    assert(log0.take(k + 1).filter(pred) =~= log0.take(k as int).filter(pred));
                }
            }
            k += 1;
        }
        proof {
            assert(log0.take(k as int) =~= log0);
        }
    }
}

/// Server-details response of the serving API: the record, if the id is
/// known, and its recent history.
#[derive(Debug, Clone, PartialEq)]
pub struct ServerDetailsResponse {
    pub server: Option<CachedServer>,
    pub history: Vec<PlayerCountHistory>,
}

/// The serving shape of one stored history sample.
pub open spec fn spec_count_entry(s: ServerHistory) -> PlayerCountHistory {
    PlayerCountHistory { player_count: s.player_count, recorded_at: s.recorded_at }
}

/// Builds the details response for one server: its record — or nothing,
/// which is a normal outcome — and up to a day's history, newest first.
pub fn server_details_response(store: &ServerStore, game_id: u64) -> (r: ServerDetailsResponse)
    ensures
        match r.server {
            Some(c) => exists|i: int|
                0 <= i < store.snapshot().len() && store.snapshot()[i].game_id == game_id
                    && c.deep_view() == #[trigger] store.snapshot()[i].deep_view(),
            None => forall|i: int|
                0 <= i < store.snapshot().len() ==> store.snapshot()[i].game_id != game_id,
        },
        ({
            let matching = sort_spec(store.log().filter(|s: ServerHistory| s.game_id == game_id));
            let capped = if matching.len() <= 1440 {
                matching
            } else {
                matching.take(1440int)
            };
            r.history@ == capped.map_values(|s: ServerHistory| spec_count_entry(s))
        }),
{
    let server = store.get_by_game_id(game_id);
    let raw = store.get_history(game_id, 24);
    let ghost raw_seq = raw@;
    let mut history: Vec<PlayerCountHistory> = Vec::new();
    let mut rest = raw;
    let total = rest.len();
    let mut i: usize = 0;
    while rest.len() > 0
        invariant
            0 <= i <= raw_seq.len(),
            total == raw_seq.len(),
            rest@ == raw_seq.skip(i as int),
            i + rest@.len() == total,
            history@ == raw_seq.take(i as int).map_values(|s: ServerHistory| spec_count_entry(s)),
        decreases rest@.len(),
    {
        let s = rest.remove(0);
        history.push(PlayerCountHistory { player_count: s.player_count, recorded_at: s.recorded_at });
        proof {
            assert(rest@ =~= raw_seq.skip(i + 1));
            assert(raw_seq.take(i + 1).drop_last() =~= raw_seq.take(i as int));
            assert(history@ =~= raw_seq.take(i + 1).map_values(
                |s: ServerHistory| spec_count_entry(s),
            ));
        }
        i += 1;
    }
    proof {
        assert(raw_seq.take(i as int) =~= raw_seq);
    }
    ServerDetailsResponse { server, history }
}

/// Purging is idempotent: filtering an already filtered log with the same
/// cutoff changes nothing.
pub proof fn lemma_purge_idempotent(log: Seq<ServerHistory>, cutoff: Seq<char>)
    ensures
        ({
            let pred = |s: ServerHistory| lex_le(str_key(cutoff), str_key(s.recorded_at@));
            log.filter(pred).filter(pred) == log.filter(pred)
        }),
{
    let pred = |s: ServerHistory| lex_le(str_key(cutoff), str_key(s.recorded_at@));
    lemma_filter_idempotent(log, pred);
}

proof fn lemma_filter_idempotent<T>(s: Seq<T>, pred: spec_fn(T) -> bool)
    ensures
        s.filter(pred).filter(pred) == s.filter(pred),
    decreases s.len(),
{
    reveal(Seq::filter);
    if s.len() == 0 {
        assert(s.filter(pred).filter(pred) =~= s.filter(pred));
    } else {
        lemma_filter_idempotent(s.drop_last(), pred);
        if pred(s.last()) {
            let t = s.drop_last().filter(pred);
            assert(s.filter(pred) == t.push(s.last()));
            assert(t.push(s.last()).drop_last() =~= t);
            assert(t.push(s.last()).last() == s.last());
        }
    }
}

/// A committed refresh leaves the snapshot holding exactly the records of
/// that cycle: a permutation of them, sorted, with no duplicate game id and
/// nothing left over from any earlier cycle.
pub proof fn lemma_snapshot_exact(records: Seq<NewCachedServer>)
    requires
        unique_new_ids(records),
    ensures
        ({
            let mapped = records.map_values(|x: NewCachedServer| CachedServer::spec_of(x));
            &&& sort_spec(mapped).to_multiset() == mapped.to_multiset()
            &&& sort_spec(mapped).len() == records.len()
            &&& unique_ids(sort_spec(mapped))
        }),
{
    let mapped = records.map_values(|x: NewCachedServer| CachedServer::spec_of(x));
    lemma_sorted_unique_ids(mapped, records);
    crate::order::lemma_sort_spec_multiset(mapped);
}

/// Sorting a converted batch with unique ids yields a snapshot with unique
/// ids: the sort is a permutation, and conversion keeps each record's id.
proof fn lemma_sorted_unique_ids(mapped: Seq<CachedServer>, records: Seq<NewCachedServer>)
    requires
        unique_new_ids(records),
        mapped == records.map_values(|x: NewCachedServer| CachedServer::spec_of(x)),
    ensures
        unique_ids(sort_spec(mapped)),
        sort_spec(mapped).to_multiset() == mapped.to_multiset(),
        sort_spec(mapped).len() == mapped.len(),
{
    assert(unique_ids(mapped));
    crate::order::lemma_sort_spec_multiset(mapped);
    lemma_unique_ids_permutation(mapped, sort_spec(mapped));
}

/// Unique game ids survive any permutation.
proof fn lemma_unique_ids_permutation(a: Seq<CachedServer>, b: Seq<CachedServer>)
    requires
        a.to_multiset() == b.to_multiset(),
        unique_ids(a),
    ensures
        unique_ids(b),
{
    broadcast use vstd::multiset::group_multiset_axioms, vstd::seq_lib::group_to_multiset_ensures;

    assert forall|i: int, j: int| 0 <= i < j < b.len() implies b[i].game_id != b[j].game_id by {
        if b[i].game_id == b[j].game_id {
            if b[i] == b[j] {
                // The same value twice would need count two in `a` as well,
                // but unique ids make `a` duplicate-free.
                let s0 = b.take(j);
                let s1 = b.skip(j);
                assert(b =~= s0 + s1);
                vstd::seq_lib::lemma_multiset_commutative(s0, s1);
                assert(s0[i] == b[i]);
                assert(s0.contains(b[i]));
                assert(s1[0] == b[j]);
                assert(s1.contains(b[j]));
                assert(b.to_multiset().count(b[i]) >= 2);
                assert(a.no_duplicates());
                a.lemma_multiset_has_no_duplicates();
                assert(a.to_multiset().contains(b[i]));
            } else {
                assert(b.contains(b[i]));
                assert(b.contains(b[j]));
                assert(a.to_multiset().count(b[i]) > 0);
                assert(a.to_multiset().count(b[j]) > 0);
                assert(a.contains(b[i]));
                assert(a.contains(b[j]));
                let k = choose|k: int| 0 <= k < a.len() && a[k] == b[i];
                let l = choose|l: int| 0 <= l < a.len() && a[l] == b[j];
                assert(k != l);
                assert(a[k].game_id != a[l].game_id);
            }
        }
    }
}

} // verus!

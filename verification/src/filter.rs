//! The filter engine: a pure multi-predicate filter over a snapshot of
//! server records. All predicates are independent and conjoined, except the
//! selected tags, which match if the record has at least one of them. The
//! engine only selects; it never reorders.

use crate::records::{CachedServer, CachedServerModel, ServerFilters};
use crate::text::{contains_sub, has_sub, matches_at, starts_with_sub};
use vstd::prelude::*;
use vstd::string::StrSliceExecFns;
use vstd::string::StringExecFns;

verus! {

/// The lower-case folding of a text, as `str::to_lowercase` computes it.
pub uninterp spec fn lower_of(s: Seq<char>) -> Seq<char>;

/// Relies on str::to_lowercase: the result depends on the characters alone.
#[verifier::external_body]
fn lowercase(s: &str) -> (r: String)
    ensures
        r@ == lower_of(s@),
{
    s.to_lowercase()
}

/// One set of filter criteria, as the server list view collects them.
#[derive(Debug, Clone, PartialEq, Default)]
pub struct FilterState {
    pub search: String,
    pub version: String,
    pub has_players: bool,
    pub no_password: bool,
    pub is_dedicated: bool,
    pub tags: Vec<String>,
}

/// The case-insensitive search hits the record: the folded needle occurs in
/// the folded name, description or one of the tags.
pub open spec fn search_matches(rec: CachedServerModel, needle: Seq<char>) -> bool {
    ||| contains_sub(lower_of(rec.name), needle)
    ||| contains_sub(lower_of(rec.description), needle)
    ||| exists|i: int| 0 <= i < rec.tags.len() && contains_sub(lower_of(#[trigger] rec.tags[i]), needle)
}

/// The record has at least one of the selected tags, compared exactly.
pub open spec fn has_selected_tag(rec: CachedServerModel, tags: Seq<Seq<char>>) -> bool {
    exists|i: int| 0 <= i < tags.len() && rec.tags.contains(#[trigger] tags[i])
}

/// The record passes every predicate of the filter: the search (empty
/// matches everything), the version prefix (empty matches everything), the
/// has-players, no-password and dedicated-only switches, and — when any tag
/// is selected — at least one selected tag.
pub open spec fn record_passes(
    rec: CachedServerModel,
    f: FilterState,
    effective_version: Seq<char>,
) -> bool {
    &&& (f.search@.len() == 0 || search_matches(rec, lower_of(f.search@)))
    &&& (effective_version.len() == 0 || matches_at(rec.game_version, effective_version, 0))
    &&& (!f.has_players || rec.player_count > 0)
    &&& (!f.no_password || !rec.has_password)
    &&& (!f.is_dedicated || rec.headless_server)
    &&& (f.tags@.len() == 0 || has_selected_tag(rec, f.tags.deep_view()))
}

/// With the password filter on, the engine excludes every record that has a
/// password: no passing record has one, whatever the other criteria say.
pub proof fn lemma_no_password_excluded(
    rec: CachedServerModel,
    f: FilterState,
    effective_version: Seq<char>,
)
    requires
        f.no_password,
        record_passes(rec, f, effective_version),
    ensures
        !rec.has_password,
{
}

/// Does the folded needle occur in the folded text?
fn search_hits(text: &str, folded_needle: &str) -> (r: bool)
    ensures
        r == contains_sub(lower_of(text@), folded_needle@),
{
    let folded = lowercase(text);
    has_sub(folded.as_str(), folded_needle)
}

/// Does the record match the search needle (already folded)?
fn record_search_matches(rec: &CachedServer, folded_needle: &str) -> (r: bool)
    ensures
        r == search_matches(rec.deep_view(), folded_needle@),
{
    if search_hits(rec.name.as_str(), folded_needle) {
        return true;
    }
    if search_hits(rec.description.as_str(), folded_needle) {
        return true;
    }
    let mut i: usize = 0;
    while i < rec.tags.len()
        invariant
            0 <= i <= rec.tags@.len(),
            forall|k: int| 0 <= k < i ==> !contains_sub(
                lower_of(#[trigger] rec.tags.deep_view()[k]),
                folded_needle@,
            ),
            !contains_sub(lower_of(rec.name@), folded_needle@),
            !contains_sub(lower_of(rec.description@), folded_needle@),
        decreases rec.tags@.len() - i,
    {
        if search_hits(rec.tags[i].as_str(), folded_needle) {
            proof {
                assert(rec.deep_view().tags[i as int] == rec.tags@[i as int]@);
            }
            return true;
        }
        proof {
            assert(rec.tags.deep_view()[i as int] == rec.tags@[i as int]@);
        }
        i += 1;
    }
    false
}

/// Does the record carry at least one of the selected tags?
fn record_has_tag(rec: &CachedServer, tags: &Vec<String>) -> (r: bool)
    ensures
        r == has_selected_tag(rec.deep_view(), tags.deep_view()),
{
    let mut i: usize = 0;
    while i < tags.len()
        invariant
            0 <= i <= tags@.len(),
            forall|k: int| 0 <= k < i ==> !rec.deep_view().tags.contains(
                #[trigger] tags.deep_view()[k],
            ),
        decreases tags@.len() - i,
    {
        let mut j: usize = 0;
        while j < rec.tags.len()
            invariant
                0 <= j <= rec.tags@.len(),
                i < tags@.len(),
                forall|k: int| 0 <= k < j ==> rec.deep_view().tags[k] != tags.deep_view()[i as int],
            decreases rec.tags@.len() - j,
        {
            if crate::text::str_eq(rec.tags[j].as_str(), tags[i].as_str()) {
                proof {
                    assert(rec.deep_view().tags[j as int] == tags.deep_view()[i as int]);
                    assert(rec.deep_view().tags.contains(tags.deep_view()[i as int]));
                }
                return true;
            }
            proof {
                assert(rec.deep_view().tags[j as int] == rec.tags@[j as int]@);
                assert(tags.deep_view()[i as int] == tags@[i as int]@);
            }
            j += 1;
        }
        proof {
            if rec.deep_view().tags.contains(tags.deep_view()[i as int]) {
                let k = choose|k: int|
                    0 <= k < rec.deep_view().tags.len() && rec.deep_view().tags[k]
                        == tags.deep_view()[i as int];
                assert(rec.deep_view().tags[k] != tags.deep_view()[i as int]);
            }
        }
        i += 1;
    }
    false
}

/// Does the record pass the whole filter?
fn passes(rec: &CachedServer, f: &FilterState, effective_version: &str, folded_needle: &str) -> (r:
    bool)
    requires
        folded_needle@ == lower_of(f.search@),
    ensures
        r == record_passes(rec.deep_view(), *f, effective_version@),
{
    if f.search.unicode_len() > 0 && !record_search_matches(rec, folded_needle) {
        return false;
    }
    if effective_version.unicode_len() > 0 && !starts_with_sub(
        rec.game_version.as_str(),
        effective_version,
    ) {
        return false;
    }
    if f.has_players && rec.player_count == 0 {
        return false;
    }
    if f.no_password && rec.has_password {
        return false;
    }
    if f.is_dedicated && !rec.headless_server {
        return false;
    }
    if f.tags.len() > 0 && !record_has_tag(rec, &f.tags) {
        return false;
    }
    true
}

/// Applies the filter to a snapshot: the result holds exactly the records
/// that pass every predicate, in their snapshot order.
pub fn filter_servers(servers: &Vec<CachedServer>, f: &FilterState, effective_version: &String) -> (r:
    Vec<CachedServer>)
    ensures
        r@.map_values(|c: CachedServer| c.deep_view()) == servers@.map_values(
            |c: CachedServer| c.deep_view(),
        ).filter(|m: CachedServerModel| record_passes(m, *f, effective_version@)),
{
    let ghost pred = |m: CachedServerModel| record_passes(m, *f, effective_version@);
    let folded_needle = lowercase(f.search.as_str());
    let mut out: Vec<CachedServer> = Vec::new();
    let mut i: usize = 0;
    while i < servers.len()
        invariant
            0 <= i <= servers@.len(),
            folded_needle@ == lower_of(f.search@),
            pred == (|m: CachedServerModel| record_passes(m, *f, effective_version@)),
            out@.map_values(|c: CachedServer| c.deep_view()) == servers@.take(i as int).map_values(
                |c: CachedServer| c.deep_view(),
            ).filter(pred),
        decreases servers@.len() - i,
    {
        let keep = passes(&servers[i], f, effective_version.as_str(), folded_needle.as_str());
        proof {
            reveal(Seq::filter);
            let mapped = servers@.take(i + 1).map_values(|c: CachedServer| c.deep_view());
            assert(mapped.drop_last() =~= servers@.take(i as int).map_values(
                |c: CachedServer| c.deep_view(),
            ));
            assert(mapped.last() == servers@[i as int].deep_view());
        }
        if keep {
            out.push(servers[i].duplicate());
            proof {
                assert(out@.map_values(|c: CachedServer| c.deep_view()) =~= servers@.take(
                    i + 1,
                ).map_values(|c: CachedServer| c.deep_view()).filter(pred));
            }
        } else {
            proof {
                assert(out@.map_values(|c: CachedServer| c.deep_view()) =~= servers@.take(
                    i + 1,
                ).map_values(|c: CachedServer| c.deep_view()).filter(pred));
            }
        }
        i += 1;
    }
    proof {
        assert(servers@.take(i as int) =~= servers@);
    }
    out
}

/// The record passes the query-string filters of the serving API: search
/// over name and description, a plain version prefix, and the has-players,
/// no-password and minimum-mod-count criteria; absent criteria match
/// everything.
pub open spec fn query_passes(rec: CachedServerModel, f: ServerFilters) -> bool {
    &&& match f.search {
        Some(s) => contains_sub(lower_of(rec.name), lower_of(s@)) || contains_sub(
            lower_of(rec.description),
            lower_of(s@),
        ),
        None => true,
    }
    &&& match f.version {
        Some(v) => matches_at(rec.game_version, v@, 0),
        None => true,
    }
    &&& match f.has_players {
        Some(h) => !h || rec.player_count > 0,
        None => true,
    }
    &&& match f.no_password {
        Some(n) => !n || !rec.has_password,
        None => true,
    }
    &&& match f.min_mods {
        Some(m) => rec.mod_count >= m,
        None => true,
    }
}

/// Does the record pass the query filters?
fn query_record_passes(rec: &CachedServer, f: &ServerFilters) -> (r: bool)
    ensures
        r == query_passes(rec.deep_view(), *f),
{
    match &f.search {
        Some(s) => {
            let folded = lowercase(s.as_str());
            if !search_hits(rec.name.as_str(), folded.as_str()) && !search_hits(
                rec.description.as_str(),
                folded.as_str(),
            ) {
                return false;
            }
        },
        None => {},
    }
    match &f.version {
        Some(v) => {
            if !starts_with_sub(rec.game_version.as_str(), v.as_str()) {
                return false;
            }
        },
        None => {},
    }
    match f.has_players {
        Some(h) => {
            if h && rec.player_count == 0 {
                return false;
            }
        },
        None => {},
    }
    match f.no_password {
        Some(n) => {
            if n && rec.has_password {
                return false;
            }
        },
        None => {},
    }
    match f.min_mods {
        Some(m) => {
            if rec.mod_count < m {
                return false;
            }
        },
        None => {},
    }
    true
}

/// Applies the query filters to a snapshot, keeping passing records in
/// order and truncating to the requested limit after filtering.
pub fn query_servers(servers: &Vec<CachedServer>, f: &ServerFilters) -> (r: (Vec<CachedServer>, usize))
    ensures
        ({
            let filtered = servers@.map_values(|c: CachedServer| c.deep_view()).filter(
                |m: CachedServerModel| query_passes(m, *f),
            );
            &&& r.1 == filtered.len()
            &&& r.0@.map_values(|c: CachedServer| c.deep_view()) == match f.limit {
                Some(l) => if filtered.len() <= l {
                    filtered
                } else {
                    filtered.take(l as int)
                },
                None => filtered,
            }
        }),
{
    let ghost pred = |m: CachedServerModel| query_passes(m, *f);
    let ghost filtered = servers@.map_values(|c: CachedServer| c.deep_view()).filter(pred);
    let mut out: Vec<CachedServer> = Vec::new();
    let mut i: usize = 0;
    while i < servers.len()
        invariant
            0 <= i <= servers@.len(),
            pred == (|m: CachedServerModel| query_passes(m, *f)),
            out@.map_values(|c: CachedServer| c.deep_view()) == servers@.take(i as int).map_values(
                |c: CachedServer| c.deep_view(),
            ).filter(pred),
        decreases servers@.len() - i,
    {
        let keep = query_record_passes(&servers[i], f);
        proof {
            reveal(Seq::filter);
            let mapped = servers@.take(i + 1).map_values(|c: CachedServer| c.deep_view());
            assert(mapped.drop_last() =~= servers@.take(i as int).map_values(
                |c: CachedServer| c.deep_view(),
            ));
            assert(mapped.last() == servers@[i as int].deep_view());
        }
        if keep {
            out.push(servers[i].duplicate());
            proof {
                assert(out@.map_values(|c: CachedServer| c.deep_view()) =~= servers@.take(
                    i + 1,
                ).map_values(|c: CachedServer| c.deep_view()).filter(pred));
            }
        } else {
            proof {
                assert(out@.map_values(|c: CachedServer| c.deep_view()) =~= servers@.take(
                    i + 1,
                ).map_values(|c: CachedServer| c.deep_view()).filter(pred));
            }
        }
        i += 1;
    }
    proof {
        assert(servers@.take(i as int) =~= servers@);
    }
    let total = out.len();
    match f.limit {
        Some(l) => {
            if out.len() > l {
                out.truncate(l);
                proof {
                    assert(out@.map_values(|c: CachedServer| c.deep_view()) =~= filtered.take(
                        l as int,
                    ));
                }
            }
            (out, total)
        },
        None => (out, total),
    }
}

/// Server-list response of the serving API: the selected records, the
/// match count before any truncation, and the stamp of the snapshot they
/// came from.
#[derive(Debug, Clone, PartialEq)]
pub struct ServersResponse {
    pub servers: Vec<CachedServer>,
    pub total: usize,
    pub cached_at: Option<String>,
}

/// Builds the server-list response: the query filters applied to the
/// snapshot, the total counted before the limit, and the `cached_at` stamp
/// of the first returned record — absent when nothing matched.
pub fn servers_response(servers: &Vec<CachedServer>, f: &ServerFilters) -> (r: ServersResponse)
    ensures
        ({
            let filtered = servers@.map_values(|c: CachedServer| c.deep_view()).filter(
                |m: CachedServerModel| query_passes(m, *f),
            );
            &&& r.total == filtered.len()
            &&& r.servers@.map_values(|c: CachedServer| c.deep_view()) == match f.limit {
                Some(l) => if filtered.len() <= l {
                    filtered
                } else {
                    filtered.take(l as int)
                },
                None => filtered,
            }
            &&& match r.cached_at {
                Some(c) => r.servers@.len() > 0 && c@ == r.servers@[0].cached_at@,
                None => r.servers@.len() == 0,
            }
        }),
{
    let (out, total) = query_servers(servers, f);
    let cached_at = if out.len() > 0 {
        let c = out[0].cached_at.clone();
        proof {
            assert(out@[0].deep_view().cached_at == out@[0].cached_at@);
        }
        Some(c)
    } else {
        None
    };
    ServersResponse { servers: out, total, cached_at }
}

} // verus!

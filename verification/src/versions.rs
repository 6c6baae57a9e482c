//! Semantic-version ordering of the game versions in a snapshot: the
//! version picker lists the distinct versions in descending semantic order,
//! versions that do not parse sorting below all that do, and the newest
//! parseable version is the default filter.
//!
//! Parsing is the semver crate's; the precedence order is encoded into an
//! integer key — major, minor and patch descending, a release before its
//! pre-releases, pre-release identifiers by their documented precedence —
//! and the library sorts by that key.

use crate::order::{lex_le, lemma_lex_le_first_diff, sort_by_key, sorted_by_key, SortKey};
use crate::records::CachedServer;
use crate::text::{find_char, first_match, is_digit, lemma_first_match_from_sound, str_eq};
use vstd::prelude::*;
use vstd::string::StrSliceExecFns;
use vstd::string::StringExecFns;

verus! {

/// The components a version text parses to, if it is a semantic version:
/// the numeric triple and the pre-release identifier text. Build metadata
/// carries no precedence and is dropped.
pub uninterp spec fn semver_key(s: Seq<char>) -> Option<(u64, u64, u64, Seq<char>)>;

/// The parsed components of one version.
#[derive(Debug, Clone, PartialEq)]
pub struct VersionKey {
    pub major: u64,
    pub minor: u64,
    pub patch: u64,
    pub pre: String,
}

/// Relies on semver's `Version::parse`: parsing is a function of the text
/// alone. The wrapper hands out the numeric components and the pre-release
/// text, dropping build metadata, which semantic-version precedence
/// ignores.
#[verifier::external_body]
pub(crate) fn parse_version(s: &str) -> (r: Option<VersionKey>)
    ensures
        match r {
            Some(k) => semver_key(s@) == Some((k.major, k.minor, k.patch, k.pre@)),
            None => semver_key(s@) is None,
        },
{
    match semver::Version::parse(s) {
        Ok(v) => Some(
            VersionKey {
                major: v.major,
                minor: v.minor,
                patch: v.patch,
                pre: v.pre.as_str().to_string(),
            },
        ),
        Err(_) => None,
    }
}

/// A key vector read as mathematical integers.
#[verifier::opaque]
pub open spec fn int_seq(s: Seq<i128>) -> Seq<int>
    decreases s.len(),
{
    if s.len() == 0 {
        Seq::empty()
    } else {
        int_seq(s.drop_last()).push(s.last() as int)
    }
}

pub proof fn lemma_int_seq(s: Seq<i128>)
    ensures
        int_seq(s).len() == s.len(),
        forall|k: int| 0 <= k < s.len() ==> int_seq(s)[k] == #[trigger] s[k] as int,
    decreases s.len(),
{
    reveal(int_seq);
    if s.len() > 0 {
        lemma_int_seq(s.drop_last());
        assert forall|k: int| 0 <= k < s.len() implies int_seq(s)[k] == #[trigger] s[k] as int by {
            if k < s.len() - 1 {
                assert(int_seq(s.drop_last())[k] == s.drop_last()[k] as int);
                assert(s.drop_last()[k] == s[k]);
            }
        }
    }
}

pub proof fn lemma_int_seq_push(s: Seq<i128>, x: i128)
    ensures
        int_seq(s.push(x)) == int_seq(s).push(x as int),
{
    reveal(int_seq);
    assert(s.push(x).drop_last() =~= s);
    assert(s.push(x).last() == x);
}

proof fn lemma_int_seq_add(a: Seq<i128>, b: Seq<i128>)
    ensures
        int_seq(a + b) == int_seq(a) + int_seq(b),
    decreases b.len(),
{
    reveal(int_seq);
    if b.len() == 0 {
        assert(a + b =~= a);
        assert(int_seq(a) + int_seq(b) =~= int_seq(a));
    } else {
        lemma_int_seq_add(a, b.drop_last());
        assert((a + b).drop_last() =~= a + b.drop_last());
        assert((a + b).last() == b.last());
        assert(int_seq(a + b) =~= int_seq(a) + int_seq(b));
    }
}

/// The code points of a text, as integers.
#[verifier::opaque]
pub open spec fn char_ints(s: Seq<char>) -> Seq<int>
    decreases s.len(),
{
    if s.len() == 0 {
        Seq::empty()
    } else {
        char_ints(s.drop_last()).push(s.last() as int)
    }
}

/// A key negated element-wise.
#[verifier::opaque]
pub open spec fn neg_seq(s: Seq<int>) -> Seq<int>
    decreases s.len(),
{
    if s.len() == 0 {
        Seq::empty()
    } else {
        neg_seq(s.drop_last()).push(-s.last())
    }
}

pub proof fn lemma_neg_seq(s: Seq<int>)
    ensures
        neg_seq(s).len() == s.len(),
        forall|k: int| 0 <= k < s.len() ==> neg_seq(s)[k] == -(#[trigger] s[k]),
    decreases s.len(),
{
    reveal(neg_seq);
    if s.len() > 0 {
        lemma_neg_seq(s.drop_last());
        assert forall|k: int| 0 <= k < s.len() implies neg_seq(s)[k] == -(#[trigger] s[k]) by {
            if k < s.len() - 1 {
                assert(neg_seq(s.drop_last())[k] == -(s.drop_last()[k]));
                assert(s.drop_last()[k] == s[k]);
            }
        }
    }
}

/// The sort key of one pre-release identifier: identifiers of digits only
/// compare numerically — first by length, valid because the grammar forbids
/// leading zeroes, then digit by digit — and below every identifier with a
/// letter or hyphen, which compare in plain ASCII order.
#[verifier::opaque]
pub open spec fn ident_key(id: Seq<char>) -> Seq<int> {
    if id.len() > 0 && (forall|i: int| 0 <= i < id.len() ==> is_digit(id[i])) {
        seq![0int, id.len() as int] + char_ints(id)
    } else {
        seq![1int] + char_ints(id)
    }
}

/// The ascending key of a whole pre-release text: its dot-separated
/// identifiers' keys, a separator below every identifier element between
/// them, so that a longer identifier list outranks its prefix.
#[verifier::opaque]
pub open spec fn asc_pre_key(s: Seq<char>) -> Seq<int>
    decreases s.len()
    via asc_pre_key_decreases
{
    match first_match(s, seq!['.']) {
        None => ident_key(s),
        Some(d) => ident_key(s.take(d)) + seq![-1int] + asc_pre_key(s.skip(d + 1)),
    }
}

#[via_fn]
proof fn asc_pre_key_decreases(s: Seq<char>) {
    lemma_first_match_from_sound(s, seq!['.'], 0);
}

/// The full order key of one version text, ascending-lexicographic order on
/// which is the browser's version order: parseable before non-parseable,
/// then major, minor and patch descending, then a release before its
/// pre-releases, then pre-release precedence descending, with a high
/// terminator so that an extension sorts before its prefix.
#[verifier::opaque]
pub open spec fn version_order_key(s: Seq<char>) -> Seq<int> {
    match semver_key(s) {
        None => seq![1int],
        Some((ma, mi, pa, pre)) => seq![0int, -(ma as int), -(mi as int), -(pa as int)] + (
        if pre.len() == 0 {
            seq![0int]
        } else {
            seq![1int] + neg_seq(asc_pre_key(pre)).push(2)
        }),
    }
}

/// A version text with its order key, ready for sorting.
pub struct VersionEntry {
    pub text: String,
    pub key: Vec<i128>,
}

impl SortKey for VersionEntry {
    open spec fn sort_key(&self) -> Seq<int> {
        int_seq(self.key@)
    }

    fn le(&self, other: &Self) -> (r: bool)
        ensures
            r == lex_le(self.sort_key(), other.sort_key()),
    {
        lex_le_vec(&self.key, &other.key)
    }
}

impl VersionEntry {
    /// The entry is keyed correctly for its text.
    pub open spec fn wf(&self) -> bool {
        self.sort_key() == version_order_key(self.text@)
    }
}

/// Decides the lexicographic order of two integer-vector keys.
fn lex_le_vec(a: &Vec<i128>, b: &Vec<i128>) -> (r: bool)
    ensures
        r == lex_le(int_seq(a@), int_seq(b@)),
{
    proof {
        lemma_int_seq(a@);
        lemma_int_seq(b@);
    }
    let ghost ka = int_seq(a@);
    let ghost kb = int_seq(b@);
    let mut i: usize = 0;
    loop
        invariant
            0 <= i <= a@.len(),
            i <= b@.len(),
            ka == int_seq(a@),
            kb == int_seq(b@),
            ka.len() == a@.len(),
            kb.len() == b@.len(),
            forall|k: int| 0 <= k < a@.len() ==> ka[k] == #[trigger] a@[k] as int,
            forall|k: int| 0 <= k < b@.len() ==> kb[k] == #[trigger] b@[k] as int,
            forall|k: int| 0 <= k < i ==> a@[k] == b@[k],
        decreases a@.len() - i,
    {
        if i == a.len() {
            proof {
                assert forall|k: int| 0 <= k < i implies ka[k] == kb[k] by {
                    assert(ka[k] == a@[k] as int);
                    assert(kb[k] == b@[k] as int);
                }
                lemma_lex_le_first_diff(ka, kb, i as int);
            }
            return true;
        }
        if i == b.len() {
            proof {
                assert forall|k: int| 0 <= k < i implies ka[k] == kb[k] by {
                    assert(ka[k] == a@[k] as int);
                    assert(kb[k] == b@[k] as int);
                }
                lemma_lex_le_first_diff(ka, kb, i as int);
            }
            return false;
        }
        let x = a[i];
        let y = b[i];
        if x != y {
            proof {
                assert forall|k: int| 0 <= k < i implies ka[k] == kb[k] by {
                    assert(ka[k] == a@[k] as int);
                    assert(kb[k] == b@[k] as int);
                }
                assert(ka[i as int] == x as int);
                assert(kb[i as int] == y as int);
                lemma_lex_le_first_diff(ka, kb, i as int);
            }
            return x < y;
        }
        i += 1;
    }
}

/// Builds the ascending pre-release key of a pre-release text.
fn build_asc_pre_key(s: &str) -> (r: Vec<i128>)
    ensures
        int_seq(r@) == asc_pre_key(s@),
        forall|q: int| 0 <= q < r@.len() ==> #[trigger] r@[q] >= -1,
    decreases s@.len(),
{
    proof {
        reveal(asc_pre_key);
        lemma_first_match_from_sound(s@, seq!['.'], 0);
    }
    let len = s.unicode_len();
    match find_char(s, '.') {
        None => build_ident_key(s, len),
        Some(d) => {
            let head = s.substring_char(0, d);
            let tail = s.substring_char(d + 1, len);
            proof {
                assert(head@ =~= s@.take(d as int));
                assert(tail@ =~= s@.skip(d as int + 1));
            }
            let mut out = build_ident_key(head, d);
            let ghost head_part = out@;
            let sep: i128 = -1;
            out.push(sep);
            proof {
                lemma_int_seq_push(head_part, sep);
                assert(out@ =~= head_part.push(sep));
                assert(int_seq(out@) =~= int_seq(head_part) + seq![-1int]);
            }
            let ghost mid_part = out@;
            let mut rest = build_asc_pre_key(tail);
            let ghost rest_part = rest@;
            out.append(&mut rest);
            proof {
                reveal(asc_pre_key);
                lemma_int_seq_add(mid_part, rest_part);
                assert(int_seq(out@) =~= asc_pre_key(s@));
            }
            out
        },
    }
}

/// Builds the key of one identifier.
fn build_ident_key(s: &str, len: usize) -> (r: Vec<i128>)
    requires
        len == s@.len(),
    ensures
        int_seq(r@) == ident_key(s@),
        forall|q: int| 0 <= q < r@.len() ==> #[trigger] r@[q] >= -1,
{
    let mut numeric = len > 0;
    let mut i: usize = 0;
    while i < len
        invariant
            0 <= i <= len,
            len == s@.len(),
            numeric == (len > 0 && forall|k: int| 0 <= k < i ==> is_digit(s@[k])),
        decreases len - i,
    {
        let c = s.get_char(i);
        if !('0' <= c && c <= '9') {
            numeric = false;
            proof {
                assert(!is_digit(s@[i as int]));
            }
        }
        i += 1;
    }
    let mut out: Vec<i128> = Vec::new();
    proof {
        reveal(int_seq);
        reveal(char_ints);
        assert(int_seq(Seq::<i128>::empty()) =~= Seq::<int>::empty());
        assert(char_ints(Seq::<char>::empty()) =~= Seq::<int>::empty());
    }
    if numeric {
        out.push(0);
        proof {
            lemma_int_seq_push(Seq::<i128>::empty(), 0);
            assert(out@ =~= Seq::<i128>::empty().push(0i128));
        }
        let ghost g = out@;
        out.push(len as i128);
        proof {
            lemma_int_seq_push(g, len as i128);
            assert(out@ =~= g.push(len as i128));
            assert(int_seq(out@) =~= seq![0int, len as int]);
        }
    } else {
        out.push(1);
        proof {
            lemma_int_seq_push(Seq::<i128>::empty(), 1);
            assert(out@ =~= Seq::<i128>::empty().push(1i128));
            assert(int_seq(out@) =~= seq![1int]);
        }
    }
    let ghost prefix = int_seq(out@);
    proof {
        assert(s@.take(0) =~= Seq::<char>::empty());
        reveal(char_ints);
        assert(char_ints(s@.take(0)) =~= Seq::<int>::empty());
    }
    let mut j: usize = 0;
    while j < len
        invariant
            0 <= j <= len,
            len == s@.len(),
            int_seq(out@) == prefix + char_ints(s@.take(j as int)),
            forall|q: int| 0 <= q < out@.len() ==> #[trigger] out@[q] >= -1,
        decreases len - j,
    {
        let c = s.get_char(j);
        let cu = c as u32;
        let ghost old_out = out@;
        out.push(cu as i128);
        proof {
            reveal(char_ints);
            lemma_int_seq_push(old_out, cu as i128);
            assert(out@ =~= old_out.push(cu as i128));
            assert((cu as i128) as int == c as int);
            assert(s@.take(j + 1).drop_last() =~= s@.take(j as int));
            assert(s@.take(j + 1).last() == c);
            assert(int_seq(out@) =~= prefix + char_ints(s@.take(j + 1)));
        }
        j += 1;
    }
    proof {
        reveal(ident_key);
        assert(s@.take(len as int) =~= s@);
        assert(int_seq(out@) =~= ident_key(s@));
    }
    out
}

/// Builds a keyed entry for one version text.
pub fn version_entry(text: String) -> (r: VersionEntry)
    ensures
        r.wf(),
        r.text@ == text@,
{
    let parsed = parse_version(text.as_str());
    let mut key: Vec<i128> = Vec::new();
    match parsed {
        None => {
            key.push(1);
            proof {
                reveal(version_order_key);
                reveal(int_seq);
                lemma_int_seq_push(Seq::<i128>::empty(), 1);
                assert(key@ =~= Seq::<i128>::empty().push(1i128));
                assert(int_seq(Seq::<i128>::empty()) =~= Seq::<int>::empty());
                assert(int_seq(key@) =~= version_order_key(text@));
            }
        },
        Some(k) => {
            let ghost head = seq![0int, -(k.major as int), -(k.minor as int), -(k.patch as int)];
            key.push(0);
            proof {
                reveal(int_seq);
                lemma_int_seq_push(Seq::<i128>::empty(), 0);
                assert(key@ =~= Seq::<i128>::empty().push(0i128));
                assert(int_seq(Seq::<i128>::empty()) =~= Seq::<int>::empty());
                assert(int_seq(key@) =~= seq![0int]);
            }
            let ghost g1 = key@;
            let nm: i128 = -(k.major as i128);
            key.push(nm);
            proof {
                lemma_int_seq_push(g1, nm);
                assert(key@ =~= g1.push(nm));
                assert(int_seq(key@) =~= seq![0int, -(k.major as int)]);
            }
            let ghost g2 = key@;
            let ni: i128 = -(k.minor as i128);
            key.push(ni);
            proof {
                lemma_int_seq_push(g2, ni);
                assert(key@ =~= g2.push(ni));
                assert(int_seq(key@) =~= seq![0int, -(k.major as int), -(k.minor as int)]);
            }
            let ghost g3 = key@;
            let np: i128 = -(k.patch as i128);
            key.push(np);
            proof {
                lemma_int_seq_push(g3, np);
                assert(key@ =~= g3.push(np));
                assert(int_seq(key@) =~= head);
            }
            if k.pre.unicode_len() == 0 {
                let ghost before = key@;
                key.push(0);
                proof {
                    reveal(version_order_key);
                    lemma_int_seq_push(before, 0);
                    assert(key@ =~= before.push(0i128));
                    assert(int_seq(key@) =~= head + seq![0int]);
                    assert(int_seq(key@) =~= version_order_key(text@));
                }
            } else {
                let ghost before = key@;
                key.push(1);
                proof {
                    lemma_int_seq_push(before, 1);
                    assert(key@ =~= before.push(1i128));
                    assert(int_seq(key@) =~= head + seq![1int]);
                }
                let ghost base = int_seq(key@);
                let asc = build_asc_pre_key(k.pre.as_str());
                proof {
                    lemma_int_seq(asc@);
                }
                let ghost asc_ints = int_seq(asc@);
                proof {
                    reveal(neg_seq);
                    assert(asc_ints.take(0) =~= Seq::<int>::empty());
                    assert(neg_seq(asc_ints.take(0)) =~= Seq::<int>::empty());
                    assert(base + neg_seq(asc_ints.take(0)) =~= base);
                }
                let mut m: usize = 0;
                while m < asc.len()
                    invariant
                        0 <= m <= asc@.len(),
                        asc_ints == int_seq(asc@),
                        asc_ints.len() == asc@.len(),
                        forall|q: int| 0 <= q < asc@.len() ==> asc_ints[q] == #[trigger] asc@[q] as int,
                        forall|q: int| 0 <= q < asc@.len() ==> #[trigger] asc@[q] >= -1,
                        int_seq(key@) == base + neg_seq(asc_ints.take(m as int)),
                    decreases asc@.len() - m,
                {
                    let v = asc[m];
                    proof {
                        assert(asc@[m as int] >= -1);
                    }
                    let ghost before2 = key@;
                    let nv: i128 = -v;
                    key.push(nv);
                    proof {
                        reveal(neg_seq);
                        lemma_int_seq_push(before2, nv);
                        assert(key@ =~= before2.push(nv));
                        assert(nv as int == -(v as int));
                        assert(asc_ints.take(m + 1).drop_last() =~= asc_ints.take(m as int));
                        assert(asc_ints.take(m + 1).last() == v as int);
                        assert(neg_seq(asc_ints.take(m + 1)) == neg_seq(
                            asc_ints.take(m as int),
                        ).push(-(v as int)));
                        assert(int_seq(key@) =~= base + neg_seq(asc_ints.take(m + 1)));
                    }
                    m += 1;
                }
                let ghost before3 = key@;
                key.push(2);
                proof {
                    lemma_neg_seq(asc_ints);
                    assert(asc_ints.take(asc@.len() as int) =~= asc_ints);
                    lemma_int_seq_push(before3, 2);
                    assert(key@ =~= before3.push(2i128));
                    assert(int_seq(key@) =~= head + (seq![1int] + neg_seq(asc_pre_key(k.pre@)).push(
                        2,
                    )));
                    reveal(version_order_key);
                    assert(int_seq(key@) =~= version_order_key(text@));
                }
            }
        },
    }
    VersionEntry { text, key }
}

/// Drops adjacent repeats from a sorted entry list, keeping the texts
/// together with the origin index of each kept text.
fn dedup_sorted(sorted: &Vec<VersionEntry>) -> (r: (Vec<String>, Ghost<Seq<int>>))
    ensures
        r.1@.len() == r.0@.len(),
        forall|p: int| 0 <= p < r.1@.len() ==> 0 <= #[trigger] r.1@[p] < sorted@.len(),
        forall|p: int, q: int| 0 <= p < q < r.1@.len() ==> r.1@[p] < r.1@[q],
        forall|p: int| 0 <= p < r.1@.len() ==> (#[trigger] r.0@[p]@) == sorted@[r.1@[p]].text@,
        forall|i: int| 0 <= i < r.0@.len() - 1 ==> r.0@[i]@ != #[trigger] r.0@[i + 1]@,
        forall|k: int| 0 <= k < sorted@.len() ==> exists|p: int|
            0 <= p < r.0@.len() && (#[trigger] sorted@[k].text@) == r.0@[p]@,
{
    let mut out: Vec<String> = Vec::new();
    let ghost mut orig: Seq<int> = Seq::empty();
    let ghost mut cover: Seq<int> = Seq::empty();
    let mut j: usize = 0;
    while j < sorted.len()
        invariant
            0 <= j <= sorted@.len(),
            orig.len() == out@.len(),
            cover.len() == j,
            forall|p: int| 0 <= p < orig.len() ==> 0 <= #[trigger] orig[p] < j,
            forall|p: int, q: int| 0 <= p < q < orig.len() ==> orig[p] < orig[q],
            forall|p: int| 0 <= p < orig.len() ==> (#[trigger] out@[p]@) == sorted@[orig[p]].text@,
            forall|p: int| 0 <= p < out@.len() - 1 ==> out@[p]@ != #[trigger] out@[p + 1]@,
            forall|k: int| 0 <= k < j ==> 0 <= #[trigger] cover[k] < out@.len(),
            forall|k: int| 0 <= k < j ==> (#[trigger] sorted@[k].text@) == out@[cover[k]]@,
            out@.len() > 0 ==> j > 0 && out@[out@.len() - 1]@ == sorted@[j - 1].text@,
            out@.len() == 0 ==> j == 0,
        decreases sorted@.len() - j,
    {
        let keep = if out.len() == 0 {
            true
        } else {
            !str_eq(out[out.len() - 1].as_str(), sorted[j].text.as_str())
        };
        let ghost out_old = out@;
        if keep {
            out.push(sorted[j].text.clone());
            proof {
                orig = orig.push(j as int);
                assert(out@[out@.len() - 1]@ == sorted@[j as int].text@);
            }
        }
        proof {
            cover = cover.push(out@.len() - 1);
            assert forall|k: int| 0 <= k < j + 1 implies (#[trigger] sorted@[k].text@)
                == out@[cover[k]]@ by {
                if k < j {
                    assert(cover[k] < out_old.len());
                    assert(out@[cover[k]] == out_old[cover[k]]);
                } else {
                    assert(cover[k] == out@.len() - 1);
                }
            }
        }
        j += 1;
    }
    proof {
        assert forall|k: int| 0 <= k < sorted@.len() implies exists|p: int|
            0 <= p < out@.len() && (#[trigger] sorted@[k].text@) == out@[p]@ by {
            let pw = cover[k];
            assert(0 <= pw < out@.len());
            assert(sorted@[k].text@ == out@[pw]@);
            assert(0 <= pw < out@.len() && sorted@[k].text@ == out@[pw]@);
        }
    }
    (out, Ghost(orig))
}

/// In a sorted, well-formed entry list, the kept texts are ordered by the
/// version order, and each comes from the list.
proof fn lemma_dedup_keys(sorted: Seq<VersionEntry>, texts: Seq<String>, orig: Seq<int>)
    requires
        sorted_by_key(sorted),
        forall|k: int| 0 <= k < sorted.len() ==> (#[trigger] sorted[k]).wf(),
        orig.len() == texts.len(),
        forall|p: int| 0 <= p < orig.len() ==> 0 <= #[trigger] orig[p] < sorted.len(),
        forall|p: int, q: int| 0 <= p < q < orig.len() ==> orig[p] < orig[q],
        forall|p: int| 0 <= p < orig.len() ==> (#[trigger] texts[p]@) == sorted[orig[p]].text@,
    ensures
        forall|p: int, q: int| 0 <= p <= q < texts.len() ==> lex_le(
            version_order_key(#[trigger] texts[p]@),
            version_order_key(#[trigger] texts[q]@),
        ),
{
    assert forall|p: int, q: int| 0 <= p <= q < texts.len() implies lex_le(
        version_order_key(#[trigger] texts[p]@),
        version_order_key(#[trigger] texts[q]@),
    ) by {
        if p < q {
            assert(orig[p] < orig[q]);
        }
        lemma_key_order(sorted, orig[p], orig[q]);
        assert(texts[p]@ == sorted[orig[p]].text@);
        assert(texts[q]@ == sorted[orig[q]].text@);
    }
}

/// In a sorted, well-formed entry sequence, any earlier entry's version key
/// precedes any later one's.
proof fn lemma_key_order(sorted: Seq<VersionEntry>, p: int, q: int)
    requires
        sorted_by_key(sorted),
        forall|k: int| 0 <= k < sorted.len() ==> (#[trigger] sorted[k]).wf(),
        0 <= p <= q < sorted.len(),
    ensures
        lex_le(version_order_key(sorted[p].text@), version_order_key(sorted[q].text@)),
{
    assert(lex_le(sorted[p].sort_key(), sorted[q].sort_key()));
}

/// A permutation of well-formed entries is well-formed.
proof fn lemma_sorted_entries_wf(entries: Seq<VersionEntry>, sorted: Seq<VersionEntry>)
    requires
        sorted.to_multiset() == entries.to_multiset(),
        forall|k: int| 0 <= k < entries.len() ==> (#[trigger] entries[k]).wf(),
    ensures
        forall|k: int| 0 <= k < sorted.len() ==> (#[trigger] sorted[k]).wf(),
{
    broadcast use vstd::multiset::group_multiset_axioms, vstd::seq_lib::group_to_multiset_ensures;

    assert forall|k: int| 0 <= k < sorted.len() implies (#[trigger] sorted[k]).wf() by {
        assert(sorted.contains(sorted[k]));
        assert(sorted.to_multiset().count(sorted[k]) > 0);
        assert(entries.contains(sorted[k]));
        let m = choose|m: int| 0 <= m < entries.len() && entries[m] == sorted[k];
        assert(entries[m].wf());
    }
}

/// The distinct game versions of a snapshot, in descending semantic order
/// with non-parseable versions last: the sorted version texts with adjacent
/// repeats dropped. Every version in the result occurs in the snapshot and
/// every snapshot version occurs in the result.
#[verifier::spinoff_prover]
#[verifier::rlimit(100)]
pub fn sorted_versions(servers: &Vec<CachedServer>) -> (r: Vec<String>)
    ensures
        forall|i: int, j: int| 0 <= i <= j < r@.len() ==> lex_le(
            version_order_key(#[trigger] r@[i]@),
            version_order_key(#[trigger] r@[j]@),
        ),
        forall|i: int| 0 <= i < r@.len() - 1 ==> r@[i]@ != #[trigger] r@[i + 1]@,
        forall|i: int| 0 <= i < r@.len() ==> exists|k: int|
            0 <= k < servers@.len() && (#[trigger] r@[i]@) == servers@[k].game_version@,
        forall|k: int| 0 <= k < servers@.len() ==> exists|i: int|
            0 <= i < r@.len() && (#[trigger] servers@[k].game_version@) == r@[i]@,
{
    broadcast use vstd::multiset::group_multiset_axioms, vstd::seq_lib::group_to_multiset_ensures;

    let mut entries: Vec<VersionEntry> = Vec::new();
    let mut i: usize = 0;
    while i < servers.len()
        invariant
            0 <= i <= servers@.len(),
            entries@.len() == i,
            forall|k: int| 0 <= k < i ==> (#[trigger] entries@[k]).wf() && entries@[k].text@
                == servers@[k].game_version@,
        decreases servers@.len() - i,
    {
        entries.push(version_entry(servers[i].game_version.clone()));
        i += 1;
    }
    let ghost entry_seq = entries@;
    let sorted = sort_by_key(entries);
    proof {
        crate::order::lemma_sort_spec_sorted(entry_seq);
        crate::order::lemma_sort_spec_multiset(entry_seq);
        lemma_sorted_entries_wf(entry_seq, sorted@);
    }
    let (out, orig) = dedup_sorted(&sorted);
    proof {
        lemma_dedup_keys(sorted@, out@, orig@);
        assert forall|p: int| 0 <= p < out@.len() implies exists|k: int|
            0 <= k < servers@.len() && (#[trigger] out@[p]@) == servers@[k].game_version@ by {
            let ks = orig@[p];
            assert(0 <= ks < sorted@.len());
            assert(out@[p]@ == sorted@[ks].text@);
            assert(sorted@.contains(sorted@[ks]));
            assert(sorted@.to_multiset().count(sorted@[ks]) > 0);
            assert(entry_seq.contains(sorted@[ks]));
            let m = choose|m: int| 0 <= m < entry_seq.len() && entry_seq[m] == sorted@[ks];
            assert(out@[p]@ == servers@[m].game_version@);
        }
        assert forall|k: int| 0 <= k < servers@.len() implies exists|i2: int|
            0 <= i2 < out@.len() && (#[trigger] servers@[k].game_version@) == out@[i2]@ by {
            assert(entry_seq.contains(entry_seq[k]));
            assert(entry_seq.to_multiset().count(entry_seq[k]) > 0);
            assert(sorted@.contains(entry_seq[k]));
            let m = choose|m: int| 0 <= m < sorted@.len() && sorted@[m] == entry_seq[k];
            assert(sorted@[m].text@ == servers@[k].game_version@);
            let p = choose|p: int| 0 <= p < out@.len() && sorted@[m].text@ == out@[p]@;
            assert(servers@[k].game_version@ == out@[p]@);
        }
    }
    out
}

/// The newest version of a sorted version list: its first element, or the
/// empty string for an empty list.
pub fn latest_version(versions: &Vec<String>) -> (r: String)
    ensures
        versions@.len() > 0 ==> r@ == versions@[0]@,
        versions@.len() == 0 ==> r@ == Seq::<char>::empty(),
{
    if versions.len() > 0 {
        versions[0].clone()
    } else {
        String::new()
    }
}

/// A parseable version never sorts at or below a non-parseable one: in the
/// version order every parseable version comes first, so once a
/// non-parseable version appears, everything ordered after it is
/// non-parseable too.
pub proof fn lemma_nonparseable_sort_last(a: Seq<char>, b: Seq<char>)
    requires
        lex_le(version_order_key(a), version_order_key(b)),
        semver_key(a) is None,
    ensures
        semver_key(b) is None,
{
    reveal(version_order_key);
    if semver_key(b) is Some {
        assert(version_order_key(a)[0] == 1);
        assert(version_order_key(b)[0] == 0);
    }
}

/// The version filter a view request means: the latest version when none
/// is given, no filter at all for the `all` sentinel, and otherwise the
/// requested version itself.
pub fn effective_version(current: &String, latest: &String) -> (r: String)
    ensures
        current@.len() == 0 ==> r@ == latest@,
        current@ == "all"@ ==> r@ == Seq::<char>::empty(),
        current@.len() > 0 && current@ != "all"@ ==> r@ == current@,
{
    proof {
        reveal_strlit("all");
    }
    if current.unicode_len() == 0 {
        return latest.clone();
    }
    if str_eq(current.as_str(), "all") {
        return String::new();
    }
    current.clone()
}

} // verus!

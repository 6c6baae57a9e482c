//! Ordering infrastructure: every ordered output of the library (records by
//! player count, history by timestamp, versions by semantic precedence) is
//! sorted by one verified insertion sort over an integer-sequence key, under
//! the lexicographic order on those keys.

use vstd::multiset::Multiset;
use vstd::prelude::*;

verus! {

/// Lexicographic "less or equal" on integer sequences; a strict prefix
/// precedes its extensions.
pub open spec fn lex_le(a: Seq<int>, b: Seq<int>) -> bool
    decreases a.len(),
{
    if a.len() == 0 {
        true
    } else if b.len() == 0 {
        false
    } else if a[0] < b[0] {
        true
    } else if a[0] > b[0] {
        false
    } else {
        lex_le(a.skip(1), b.skip(1))
    }
}

pub proof fn lemma_lex_le_total(a: Seq<int>, b: Seq<int>)
    ensures
        lex_le(a, b) || lex_le(b, a),
    decreases a.len(),
{
    if a.len() > 0 && b.len() > 0 && a[0] == b[0] {
        lemma_lex_le_total(a.skip(1), b.skip(1));
    }
}

pub proof fn lemma_lex_le_refl(a: Seq<int>)
    ensures
        lex_le(a, a),
    decreases a.len(),
{
    if a.len() > 0 {
        lemma_lex_le_refl(a.skip(1));
    }
}

pub proof fn lemma_lex_le_trans(a: Seq<int>, b: Seq<int>, c: Seq<int>)
    requires
        lex_le(a, b),
        lex_le(b, c),
    ensures
        lex_le(a, c),
    decreases a.len(),
{
    if a.len() > 0 && b.len() > 0 && c.len() > 0 && a[0] == b[0] && b[0] == c[0] {
        lemma_lex_le_trans(a.skip(1), b.skip(1), c.skip(1));
    }
}

/// Decides the lexicographic order from a common prefix and the first point
/// of difference: `i` is the length of the common prefix, and either ends one
/// of the sequences or holds differing elements.
pub proof fn lemma_lex_le_first_diff(a: Seq<int>, b: Seq<int>, i: int)
    requires
        0 <= i <= a.len(),
        i <= b.len(),
        forall|k: int| 0 <= k < i ==> a[k] == b[k],
        i == a.len() || i == b.len() || a[i] != b[i],
    ensures
        lex_le(a, b) == (i == a.len() || (i < a.len() && i < b.len() && a[i] < b[i])),
    decreases i,
{
    if i == 0 {
    } else {
        lemma_lex_le_first_diff(a.skip(1), b.skip(1), i - 1);
    }
}

/// A type the library sorts: each value maps to an integer-sequence key, and
/// `le` decides the key order executably.
pub trait SortKey: Sized {
    spec fn sort_key(&self) -> Seq<int>;

    fn le(&self, other: &Self) -> (r: bool)
        ensures
            r == lex_le(self.sort_key(), other.sort_key()),
    ;
}

/// Stable insertion of `x` into a sorted sequence: `x` goes after every
/// element whose key is less than or equal to its own.
pub open spec fn insert_sorted<T: SortKey>(s: Seq<T>, x: T) -> Seq<T>
    decreases s.len(),
{
    if s.len() > 0 && lex_le(s[0].sort_key(), x.sort_key()) {
        seq![s[0]] + insert_sorted(s.skip(1), x)
    } else {
        seq![x] + s
    }
}

/// Stable insertion sort, processing elements left to right.
pub open spec fn sort_spec<T: SortKey>(s: Seq<T>) -> Seq<T>
    decreases s.len(),
{
    if s.len() == 0 {
        Seq::empty()
    } else {
        insert_sorted(sort_spec(s.drop_last()), s.last())
    }
}

/// Keys appear in ascending lexicographic order.
pub open spec fn sorted_by_key<T: SortKey>(s: Seq<T>) -> bool {
    forall|i: int, j: int| 0 <= i <= j < s.len() ==> lex_le(s[i].sort_key(), s[j].sort_key())
}

proof fn lemma_insert_sorted_at<T: SortKey>(s: Seq<T>, x: T, j: int)
    requires
        0 <= j <= s.len(),
        forall|k: int| 0 <= k < j ==> lex_le(s[k].sort_key(), x.sort_key()),
        j < s.len() ==> !lex_le(s[j].sort_key(), x.sort_key()),
    ensures
        insert_sorted(s, x) == s.take(j) + seq![x] + s.skip(j),
    decreases j,
{
    if j == 0 {
        assert(insert_sorted(s, x) =~= s.take(0) + seq![x] + s.skip(0));
    } else {
        lemma_insert_sorted_at(s.skip(1), x, j - 1);
        assert(s.skip(1).take(j - 1) =~= s.take(j).skip(1));
        assert(s.skip(1).skip(j - 1) =~= s.skip(j));
        assert(insert_sorted(s, x) =~= s.take(j) + seq![x] + s.skip(j));
    }
}

proof fn lemma_insert_sorted_keeps_sorted<T: SortKey>(s: Seq<T>, x: T)
    requires
        sorted_by_key(s),
    ensures
        sorted_by_key(insert_sorted(s, x)),
    decreases s.len(),
{
    if s.len() > 0 && lex_le(s[0].sort_key(), x.sort_key()) {
        assert forall|i: int, j: int| 0 <= i <= j < s.skip(1).len() implies lex_le(
            s.skip(1)[i].sort_key(),
            s.skip(1)[j].sort_key(),
        ) by {
            assert(s.skip(1)[i] == s[i + 1]);
            assert(s.skip(1)[j] == s[j + 1]);
        }
        lemma_insert_sorted_keeps_sorted(s.skip(1), x);
        let t = insert_sorted(s.skip(1), x);
        let r = seq![s[0]] + t;
        assert(insert_sorted(s, x) == r);
        assert forall|i: int, j: int| 0 <= i <= j < r.len() implies lex_le(
            r[i].sort_key(),
            r[j].sort_key(),
        ) by {
            if i == 0 {
                if j == 0 {
                    lemma_lex_le_refl(s[0].sort_key());
                } else {
                    let rj = t[j - 1];
                    lemma_insert_sorted_in(s.skip(1), x, j - 1);
                    if rj == x {
                    } else {
                        assert(s.skip(1).contains(rj));
                        let k = choose|k: int| 0 <= k < s.skip(1).len() && s.skip(1)[k] == rj;
                        assert(s[k + 1] == rj);
                        assert(lex_le(s[0].sort_key(), s[k + 1].sort_key()));
                    }
                }
            } else {
                assert(r[i] == t[i - 1]);
                assert(r[j] == t[j - 1]);
                assert(lex_le(t[i - 1].sort_key(), t[j - 1].sort_key()));
            }
        }
    } else {
        if s.len() > 0 {
            lemma_lex_le_total(s[0].sort_key(), x.sort_key());
            let r = seq![x] + s;
            assert forall|i: int, j: int| 0 <= i <= j < r.len() implies lex_le(
                r[i].sort_key(),
                r[j].sort_key(),
            ) by {
                if i == 0 && j > 0 {
                    assert(r[j] == s[j - 1]);
                    assert(lex_le(s[0].sort_key(), s[j - 1].sort_key()));
                    lemma_lex_le_trans(x.sort_key(), s[0].sort_key(), s[j - 1].sort_key());
                } else if i == 0 && j == 0 {
                    lemma_lex_le_refl(x.sort_key());
                } else {
                    assert(r[i] == s[i - 1]);
                    assert(r[j] == s[j - 1]);
                    assert(lex_le(s[i - 1].sort_key(), s[j - 1].sort_key()));
                }
            }
        } else {
            lemma_lex_le_refl(x.sort_key());
            assert(insert_sorted(s, x) =~= seq![x]);
        }
    }
}

/// Every element of an insertion result is the inserted element or comes from
/// the original sequence.
proof fn lemma_insert_sorted_in<T: SortKey>(s: Seq<T>, x: T, i: int)
    requires
        0 <= i < insert_sorted(s, x).len(),
    ensures
        insert_sorted(s, x)[i] == x || s.contains(insert_sorted(s, x)[i]),
    decreases s.len(),
{
    if s.len() > 0 && lex_le(s[0].sort_key(), x.sort_key()) {
        if i == 0 {
            assert(s.contains(s[0]));
        } else {
            lemma_insert_sorted_in(s.skip(1), x, i - 1);
            let r = insert_sorted(s, x);
            if r[i] == x {
            } else {
                let k = choose|k: int| 0 <= k < s.skip(1).len() && s.skip(1)[k] == r[i];
                assert(s[k + 1] == r[i]);
                assert(s.contains(s[k + 1]));
            }
        }
    } else {
        if i > 0 {
            assert(insert_sorted(s, x)[i] == s[i - 1]);
            assert(s.contains(s[i - 1]));
        }
    }
}

proof fn lemma_insert_sorted_multiset<T: SortKey>(s: Seq<T>, x: T)
    ensures
        insert_sorted(s, x).to_multiset() == s.to_multiset().insert(x),
    decreases s.len(),
{
    broadcast use vstd::multiset::group_multiset_axioms, vstd::seq_lib::to_multiset_insert;

    if s.len() > 0 && lex_le(s[0].sort_key(), x.sort_key()) {
        lemma_insert_sorted_multiset(s.skip(1), x);
        let t = insert_sorted(s.skip(1), x);
        assert(seq![s[0]] + t =~= t.insert(0, s[0]));
        assert(s =~= s.skip(1).insert(0, s[0]));
        assert(insert_sorted(s, x).to_multiset() =~= s.to_multiset().insert(x));
    } else {
        assert(seq![x] + s =~= s.insert(0, x));
        assert(insert_sorted(s, x).to_multiset() =~= s.to_multiset().insert(x));
    }
}

/// The sorted sequence is a permutation of the input: same multiset.
pub proof fn lemma_sort_spec_multiset<T: SortKey>(s: Seq<T>)
    ensures
        sort_spec(s).to_multiset() == s.to_multiset(),
        sort_spec(s).len() == s.len(),
    decreases s.len(),
{
    broadcast use vstd::multiset::group_multiset_axioms, vstd::seq_lib::to_multiset_build, vstd::seq_lib::to_multiset_len;

    if s.len() == 0 {
        assert(s =~= Seq::<T>::empty());
        assert(sort_spec(s).to_multiset() =~= s.to_multiset());
    } else {
        lemma_sort_spec_multiset(s.drop_last());
        lemma_insert_sorted_multiset(sort_spec(s.drop_last()), s.last());
        assert(s =~= s.drop_last().push(s.last()));
        assert(sort_spec(s).to_multiset() =~= s.to_multiset());
    }
    assert(sort_spec(s).len() == sort_spec(s).to_multiset().len());
    assert(s.len() == s.to_multiset().len());
}

/// The sort's output is sorted by key.
pub proof fn lemma_sort_spec_sorted<T: SortKey>(s: Seq<T>)
    ensures
        sorted_by_key(sort_spec(s)),
    decreases s.len(),
{
    if s.len() > 0 {
        lemma_sort_spec_sorted(s.drop_last());
        lemma_insert_sorted_keeps_sorted(sort_spec(s.drop_last()), s.last());
    }
}

/// Sorts a vector by key, consuming it; the result is exactly the stable
/// insertion sort of the input.
pub fn sort_by_key<T: SortKey>(v: Vec<T>) -> (r: Vec<T>)
    ensures
        r@ == sort_spec(v@),
{
    let ghost orig = v@;
    let total = v.len();
    let mut rest = v;
    let mut out: Vec<T> = Vec::new();
    let mut i: usize = 0;
    while rest.len() > 0
        invariant
            out@ == sort_spec(orig.take(i as int)),
            rest@ == orig.skip(i as int),
            i <= total,
            total == orig.len(),
            i + rest@.len() == total,
        decreases rest@.len(),
    {
        let x = rest.remove(0);
        proof {
            assert(rest@ =~= orig.skip(i + 1));
        }
        let mut j: usize = 0;
        while j < out.len() && out[j].le(&x)
            invariant
                0 <= j <= out@.len(),
                forall|k: int| 0 <= k < j ==> lex_le(out@[k].sort_key(), x.sort_key()),
            decreases out@.len() - j,
        {
            j += 1;
        }
        proof {
            lemma_insert_sorted_at(out@, x, j as int);
            assert(orig.take(i + 1).drop_last() =~= orig.take(i as int));
            assert(orig.take(i + 1).last() == orig[i as int]);
        }
        out.insert(j, x);
        proof {
            assert(out@ =~= sort_spec(orig.take(i + 1)));
        }
        i += 1;
    }
    proof {
        assert(orig.take(i as int) =~= orig);
    }
    out
}

} // verus!

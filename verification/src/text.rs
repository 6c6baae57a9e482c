//! Character-sequence utilities shared by the markup parser, the resolvers
//! and the filter engine: substring search, ASCII case folding, decimal
//! rendering and decimal parsing.

use vstd::prelude::*;

verus! {

broadcast use vstd::string::group_string_axioms;

/// The needle `n` occurs in `h` starting at position `i`.
pub open spec fn matches_at(h: Seq<char>, n: Seq<char>, i: int) -> bool {
    0 <= i && i + n.len() <= h.len() && h.subrange(i, i + n.len()) == n
}

/// No occurrence of `n` starts in `[lo, hi)`.
pub open spec fn no_match_in(h: Seq<char>, n: Seq<char>, lo: int, hi: int) -> bool {
    forall|k: int| lo <= k < hi ==> !matches_at(h, n, k)
}

/// Position of the first occurrence of `n` in `h` at or after `i`.
pub open spec fn first_match_from(h: Seq<char>, n: Seq<char>, i: int) -> Option<int>
    decreases h.len() + 1 - i
    when 0 <= i
{
    if i + n.len() > h.len() {
        None
    } else if matches_at(h, n, i) {
        Some(i)
    } else {
        first_match_from(h, n, i + 1)
    }
}

/// Position of the first occurrence of `n` in `h`, if any.
pub open spec fn first_match(h: Seq<char>, n: Seq<char>) -> Option<int> {
    first_match_from(h, n, 0)
}

pub proof fn lemma_first_match_from_sound(h: Seq<char>, n: Seq<char>, i: int)
    requires
        0 <= i,
    ensures
        match first_match_from(h, n, i) {
            Some(j) => i <= j && matches_at(h, n, j) && no_match_in(h, n, i, j),
            None => no_match_in(h, n, i, h.len() as int + 1),
        },
    decreases h.len() + 1 - i,
{
    if i + n.len() > h.len() {
        assert(no_match_in(h, n, i, h.len() as int + 1));
    } else if matches_at(h, n, i) {
    } else {
        lemma_first_match_from_sound(h, n, i + 1);
    }
}

pub proof fn lemma_first_match_from_complete(h: Seq<char>, n: Seq<char>, i: int, j: int)
    requires
        0 <= i <= j,
        matches_at(h, n, j),
        no_match_in(h, n, i, j),
    ensures
        first_match_from(h, n, i) == Some(j),
    decreases j - i,
{
    if i < j {
        lemma_first_match_from_complete(h, n, i + 1, j);
    }
}

pub proof fn lemma_first_match_none(h: Seq<char>, n: Seq<char>)
    requires
        no_match_in(h, n, 0, h.len() as int + 1),
    ensures
        first_match(h, n) is None,
{
    lemma_first_match_from_sound(h, n, 0);
    if first_match_from(h, n, 0) is Some {
        let j = first_match_from(h, n, 0)->0;
        assert(matches_at(h, n, j));
    }
}

/// First occurrence of the string `n` in `h`, scanning left to right.
pub fn find_sub(h: &str, n: &str) -> (r: Option<usize>)
    ensures
        match r {
            Some(i) => first_match(h@, n@) == Some(i as int),
            None => first_match(h@, n@) is None,
        },
{
    let hl = h.unicode_len();
    let nl = n.unicode_len();
    if nl > hl {
        proof {
            lemma_first_match_none(h@, n@);
        }
        return None;
    }
    if nl == 0 {
        proof {
            assert(h@.subrange(0, 0) =~= n@);
            lemma_first_match_from_complete(h@, n@, 0, 0);
        }
        return Some(0);
    }
    let mut i: usize = 0;
    while i <= hl - nl
        invariant
            0 <= i <= hl,
            1 <= nl <= hl,
            hl == h@.len(),
            nl == n@.len(),
            no_match_in(h@, n@, 0, i as int),
        decreases hl - i,
    {
        let mut j: usize = 0;
        let mut ok = true;
        while j < nl
            invariant
                0 <= j <= nl,
                i <= hl - nl,
                hl == h@.len(),
                nl == n@.len(),
                ok == (forall|k: int| 0 <= k < j ==> h@[i + k] == n@[k]),
            decreases nl - j,
        {
            if h.get_char(i + j) != n.get_char(j) {
                ok = false;
            }
            j += 1;
        }
        if ok {
            proof {
                assert(h@.subrange(i as int, i + n@.len()) =~= n@);
                lemma_first_match_from_complete(h@, n@, 0, i as int);
            }
            return Some(i);
        }
        proof {
            let k = choose|k: int| 0 <= k < nl && h@[i + k] != n@[k];
            if matches_at(h@, n@, i as int) {
                assert(h@.subrange(i as int, i + n@.len())[k] == n@[k]);
            }
        }
        i += 1;
    }
    proof {
        assert forall|k: int| 0 <= k < h@.len() + 1 implies !matches_at(h@, n@, k) by {
            if k + n@.len() <= h@.len() {
                assert(k < i);
            }
        }
        lemma_first_match_none(h@, n@);
    }
    None
}

/// First occurrence of the character `c` in `h`: the first match of the
/// one-character sequence `[c]`.
pub fn find_char(h: &str, c: char) -> (r: Option<usize>)
    ensures
        match r {
            Some(i) => first_match(h@, seq![c]) == Some(i as int),
            None => first_match(h@, seq![c]) is None,
        },
{
    let hl = h.unicode_len();
    let mut i: usize = 0;
    while i < hl
        invariant
            0 <= i <= hl,
            hl == h@.len(),
            no_match_in(h@, seq![c], 0, i as int),
        decreases hl - i,
    {
        if h.get_char(i) == c {
            proof {
                assert(h@.subrange(i as int, i + 1) =~= seq![c]);
                lemma_first_match_from_complete(h@, seq![c], 0, i as int);
            }
            return Some(i);
        }
        proof {
            if matches_at(h@, seq![c], i as int) {
                assert(h@.subrange(i as int, i + 1)[0] == c);
            }
        }
        i += 1;
    }
    proof {
        assert forall|k: int| 0 <= k < h@.len() + 1 implies !matches_at(h@, seq![c], k) by {
            if 0 <= k && k + 1 <= h@.len() {
                assert(k < i);
                assert(!matches_at(h@, seq![c], k));
            }
        }
        lemma_first_match_none(h@, seq![c]);
    }
    None
}

/// `h` contains `n` somewhere.
pub open spec fn contains_sub(h: Seq<char>, n: Seq<char>) -> bool {
    exists|i: int| matches_at(h, n, i)
}

/// Substring test, stated against `contains_sub`.
pub fn has_sub(h: &str, n: &str) -> (r: bool)
    ensures
        r == contains_sub(h@, n@),
{
    proof {
        lemma_first_match_from_sound(h@, n@, 0);
    }
    match find_sub(h, n) {
        Some(_) => true,
        None => {
            proof {
                if contains_sub(h@, n@) {
                    let i = choose|i: int| matches_at(h@, n@, i);
                    assert(!matches_at(h@, n@, i));
                }
            }
            false
        },
    }
}

/// Does `h` contain the character `c`?
pub fn has_char(h: &str, c: char) -> (r: bool)
    ensures
        r == contains_sub(h@, seq![c]),
{
    proof {
        lemma_first_match_from_sound(h@, seq![c], 0);
    }
    match find_char(h, c) {
        Some(_) => true,
        None => {
            proof {
                if contains_sub(h@, seq![c]) {
                    let i = choose|i: int| matches_at(h@, seq![c], i);
                    assert(!matches_at(h@, seq![c], i));
                }
            }
            false
        },
    }
}

/// `h` begins with `n`.
pub fn starts_with_sub(h: &str, n: &str) -> (r: bool)
    ensures
        r == matches_at(h@, n@, 0),
{
    let hl = h.unicode_len();
    let nl = n.unicode_len();
    if nl > hl {
        return false;
    }
    let mut j: usize = 0;
    while j < nl
        invariant
            0 <= j <= nl,
            nl <= hl,
            hl == h@.len(),
            nl == n@.len(),
            forall|k: int| 0 <= k < j ==> h@[k] == n@[k],
        decreases nl - j,
    {
        if h.get_char(j) != n.get_char(j) {
            proof {
                if matches_at(h@, n@, 0) {
                    assert(h@.subrange(0, n@.len() as int)[j as int] == n@[j as int]);
                }
            }
            return false;
        }
        j += 1;
    }
    proof {
        assert(h@.subrange(0, n@.len() as int) =~= n@);
    }
    true
}

/// Character-for-character equality of two string slices.
pub fn str_eq(a: &str, b: &str) -> (r: bool)
    ensures
        r == (a@ == b@),
{
    let al = a.unicode_len();
    let bl = b.unicode_len();
    if al != bl {
        return false;
    }
    let mut i: usize = 0;
    while i < al
        invariant
            0 <= i <= al,
            al == a@.len(),
            al == b@.len(),
            forall|k: int| 0 <= k < i ==> a@[k] == b@[k],
        decreases al - i,
    {
        if a.get_char(i) != b.get_char(i) {
            return false;
        }
        i += 1;
    }
    proof {
        assert(a@ =~= b@);
    }
    true
}

/// ASCII lower-casing of one character; anything outside `A`..`Z` is kept.
pub open spec fn lower_char(c: char) -> char {
    if 'A' <= c && c <= 'Z' {
        (((c as u8) + 32) as u8) as char
    } else {
        c
    }
}

/// ASCII lower-casing of a character sequence.
pub open spec fn lower_seq(s: Seq<char>) -> Seq<char> {
    s.map_values(|c: char| lower_char(c))
}

/// ASCII lower-casing of one character, executable form.
pub fn to_lower_char(c: char) -> (r: char)
    ensures
        r == lower_char(c),
{
    if 'A' <= c && c <= 'Z' {
        ((c as u8) + 32) as char
    } else {
        c
    }
}

/// Case-insensitive (ASCII) equality of two strings.
pub fn eq_ignore_ascii(a: &str, b: &str) -> (r: bool)
    ensures
        r == (lower_seq(a@) == lower_seq(b@)),
{
    let al = a.unicode_len();
    let bl = b.unicode_len();
    if al != bl {
        proof {
            assert(lower_seq(a@).len() != lower_seq(b@).len());
        }
        return false;
    }
    let mut i: usize = 0;
    while i < al
        invariant
            0 <= i <= al,
            al == a@.len(),
            al == b@.len(),
            forall|k: int| 0 <= k < i ==> lower_char(a@[k]) == lower_char(b@[k]),
        decreases al - i,
    {
        if to_lower_char(a.get_char(i)) != to_lower_char(b.get_char(i)) {
            proof {
                assert(lower_seq(a@)[i as int] != lower_seq(b@)[i as int]);
            }
            return false;
        }
        i += 1;
    }
    proof {
        assert(lower_seq(a@) =~= lower_seq(b@));
    }
    true
}

/// The character for one decimal digit.
pub open spec fn digit_char(d: int) -> char {
    if d == 0 { '0' }
    else if d == 1 { '1' }
    else if d == 2 { '2' }
    else if d == 3 { '3' }
    else if d == 4 { '4' }
    else if d == 5 { '5' }
    else if d == 6 { '6' }
    else if d == 7 { '7' }
    else if d == 8 { '8' }
    else { '9' }
}

/// Decimal rendering of a non-negative integer, most significant digit first.
pub open spec fn dec_str(n: int) -> Seq<char>
    decreases n
    when n >= 0
{
    if n < 10 {
        seq![digit_char(n)]
    } else {
        dec_str(n / 10).push(digit_char(n % 10))
    }
}

/// Appends the decimal rendering of `n` to `out`.
pub fn append_dec(out: &mut String, n: u64)
    ensures
        final(out)@ == old(out)@ + dec_str(n as int),
    decreases n,
{
    let digits = "0123456789";
    proof {
        reveal_strlit("0123456789");
    }
    if n < 10 {
        let d = n as usize;
        let piece = digits.substring_ascii(d, d + 1);
        assert(piece@ =~= seq![digit_char(n as int)]);
        out.append(piece);
    } else {
        append_dec(out, n / 10);
        let d = (n % 10) as usize;
        let piece = digits.substring_ascii(d, d + 1);
        assert(piece@ =~= seq![digit_char((n % 10) as int)]);
        out.append(piece);
        assert(final(out)@ =~= old(out)@ + dec_str(n as int));
    }
}

/// Is `c` a decimal digit?
pub open spec fn is_digit(c: char) -> bool {
    '0' <= c && c <= '9'
}

/// Numeric value of a digit character.
pub open spec fn digit_val(c: char) -> int {
    c as int - '0' as int
}

/// Every character is a digit, and there is at least one.
pub open spec fn all_digits(s: Seq<char>) -> bool {
    s.len() > 0 && forall|i: int| 0 <= i < s.len() ==> is_digit(s[i])
}

/// Value of a digit string, most significant digit first.
pub open spec fn dec_value(s: Seq<char>) -> int
    decreases s.len(),
{
    if s.len() == 0 {
        0
    } else {
        dec_value(s.drop_last()) * 10 + digit_val(s.last())
    }
}

/// The digits of a decimal integer literal as `u64::from_str` accepts it:
/// an optional leading `+`, then the digits themselves.
pub open spec fn unsigned_body(s: Seq<char>) -> Seq<char> {
    if s.len() > 0 && s[0] == '+' {
        s.skip(1)
    } else {
        s
    }
}

/// The value `u64::from_str(s).unwrap_or(0)` takes: the decimal value where
/// `s` is all digits (after an optional `+`) and fits in a `u64`, zero
/// otherwise.
pub open spec fn parsed_u64_or_zero(s: Seq<char>) -> u64 {
    let d = unsigned_body(s);
    if all_digits(d) && dec_value(d) <= u64::MAX {
        dec_value(d) as u64
    } else {
        0
    }
}

pub proof fn lemma_dec_value_nonneg(s: Seq<char>)
    requires
        forall|i: int| 0 <= i < s.len() ==> is_digit(s[i]),
    ensures
        dec_value(s) >= 0,
    decreases s.len(),
{
    if s.len() > 0 {
        lemma_dec_value_nonneg(s.drop_last());
    }
}

proof fn lemma_dec_value_grows(s: Seq<char>, i: int)
    requires
        forall|k: int| 0 <= k < s.len() ==> is_digit(s[k]),
        0 <= i <= s.len(),
    ensures
        dec_value(s) >= dec_value(s.take(i)),
    decreases s.len() - i,
{
    lemma_dec_value_nonneg(s.take(i));
    if i < s.len() {
        assert(s.take(i + 1).drop_last() =~= s.take(i));
        assert(dec_value(s.take(i + 1)) == dec_value(s.take(i)) * 10 + digit_val(s.take(i + 1).last()));
        lemma_dec_value_nonneg(s.take(i));
        lemma_dec_value_grows(s, i + 1);
    } else {
        assert(s.take(i) =~= s);
    }
}

/// Parses `s` as `u64::from_str(s).unwrap_or(0)` would: the decimal value on
/// a well-formed, in-range input and zero on anything else.
pub fn parse_u64_or_zero(s: &str) -> (r: u64)
    ensures
        r == parsed_u64_or_zero(s@),
{
    let len = s.unicode_len();
    let start: usize = if len > 0 && s.get_char(0) == '+' { 1 } else { 0 };
    let ghost d = unsigned_body(s@);
    if start == len {
        // empty digit part
        assert(!all_digits(d));
        return 0;
    }
    let mut acc: u64 = 0;
    let mut overflowed = false;
    let mut i: usize = start;
    while i < len
        invariant
            start <= i <= len,
            len == s@.len(),
            start == 1 ==> s@.len() > 0 && s@[0] == '+',
            start == 0 ==> !(s@.len() > 0 && s@[0] == '+'),
            d == unsigned_body(s@),
            d =~= s@.skip(start as int),
            forall|k: int| start <= k < i ==> is_digit(s@[k]),
            !overflowed ==> acc == dec_value(d.take(i - start)),
            overflowed ==> dec_value(d.take(i - start)) > u64::MAX,
            forall|k: int| 0 <= k < d.len() ==> d[k] == s@[k + start],
        decreases len - i,
    {
        let c = s.get_char(i);
        if !('0' <= c && c <= '9') {
            assert(!is_digit(d[i - start]));
            assert(!all_digits(d));
            return 0;
        }
        let dv = (c as u32 - '0' as u32) as u64;
        proof {
            assert(d.take(i + 1 - start).drop_last() =~= d.take(i - start));
            assert(d.take(i + 1 - start).last() == s@[i as int]);
        }
        if !overflowed {
            if acc > (u64::MAX - dv) / 10 {
                proof {
                    assert(dec_value(d.take(i + 1 - start)) == acc * 10 + dv);
                    assert(acc * 10 + dv > u64::MAX) by (nonlinear_arith)
                        requires
                            acc > (u64::MAX - dv) / 10,
                            dv <= 9,
                            acc <= u64::MAX,
                    ;
                }
                overflowed = true;
            } else {
                proof {
                    assert(acc * 10 + dv <= u64::MAX) by (nonlinear_arith)
                        requires
                            acc <= (u64::MAX - dv) / 10,
                            0 <= dv <= 9,
                            0 <= acc,
                    ;
                }
                acc = acc * 10 + dv;
            }
        } else {
            proof {
                lemma_dec_value_nonneg(d.take(i - start));
                assert(dec_value(d.take(i + 1 - start)) == dec_value(d.take(i - start)) * 10 + dv);
                assert(dec_value(d.take(i - start)) * 10 + dv > u64::MAX) by (nonlinear_arith)
                    requires
                        dec_value(d.take(i - start)) > u64::MAX,
                        dv >= 0,
                ;
            }
        }
        i += 1;
    }
    proof {
        assert(d.take(i - start) =~= d);
        assert(all_digits(d));
    }
    if overflowed {
        return 0;
    }
    acc
}

} // verus!

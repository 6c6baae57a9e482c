//! Style resolvers for the markup dialect: free-form attribute values are
//! resolved only against fixed allow-lists (named colors, hex colors, a
//! normalized RGB form, a fixed font table); anything else falls back to a
//! safe default instead of passing through. The allow-list is a security
//! boundary: no unvalidated text ever becomes a style value.

use crate::text::{
    all_digits, contains_sub, dec_str, dec_value, digit_val, find_char, first_match, has_char,
    is_digit, lemma_first_match_from_sound, lower_seq, append_dec, eq_ignore_ascii,
};
use vstd::prelude::*;
use vstd::string::StrSliceExecFns;
use vstd::string::StringExecFns;

verus! {

/// Case-insensitive (ASCII) equality of two character sequences.
pub open spec fn eq_ci(a: Seq<char>, b: Seq<char>) -> bool {
    lower_seq(a) == lower_seq(b)
}

/// An ASCII hexadecimal digit.
pub open spec fn is_hex_digit(c: char) -> bool {
    ('0' <= c && c <= '9') || ('a' <= c && c <= 'f') || ('A' <= c && c <= 'F')
}

/// Exactly six hexadecimal digits.
pub open spec fn is_hex6(s: Seq<char>) -> bool {
    s.len() == 6 && forall|i: int| 0 <= i < s.len() ==> is_hex_digit(s[i])
}

/// ASCII whitespace, as trimmed around RGB components.
pub open spec fn is_space(c: char) -> bool {
    c == ' ' || c == '\t' || c == '\n' || c == '\r'
}

/// Drops leading whitespace.
pub open spec fn trim_start_sp(s: Seq<char>) -> Seq<char>
    decreases s.len(),
{
    if s.len() > 0 && is_space(s[0]) {
        trim_start_sp(s.skip(1))
    } else {
        s
    }
}

/// Drops trailing whitespace.
pub open spec fn trim_end_sp(s: Seq<char>) -> Seq<char>
    decreases s.len(),
{
    if s.len() > 0 && is_space(s.last()) {
        trim_end_sp(s.drop_last())
    } else {
        s
    }
}

/// Drops whitespace on both ends.
pub open spec fn trim_sp(s: Seq<char>) -> Seq<char> {
    trim_end_sp(trim_start_sp(s))
}

proof fn lemma_trim_start_at(s: Seq<char>, j: int)
    requires
        0 <= j <= s.len(),
        forall|k: int| 0 <= k < j ==> is_space(s[k]),
        j < s.len() ==> !is_space(s[j]),
    ensures
        trim_start_sp(s) == s.skip(j),
    decreases j,
{
    if j == 0 {
        if s.len() > 0 && is_space(s[0]) {
            assert(false);
        }
        assert(s.skip(0) =~= s);
    } else {
        lemma_trim_start_at(s.skip(1), j - 1);
        assert(s.skip(1).skip(j - 1) =~= s.skip(j));
    }
}

proof fn lemma_trim_end_at(s: Seq<char>, j: int)
    requires
        0 <= j <= s.len(),
        forall|k: int| j <= k < s.len() ==> is_space(s[k]),
        j > 0 ==> !is_space(s[j - 1]),
    ensures
        trim_end_sp(s) == s.take(j),
    decreases s.len() - j,
{
    if j == s.len() {
        if s.len() > 0 && is_space(s.last()) {
            assert(false);
        }
        assert(s.take(j) =~= s);
    } else {
        lemma_trim_end_at(s.drop_last(), j);
        assert(s.drop_last().take(j) =~= s.take(j));
    }
}

/// Trims ASCII whitespace from both ends of a string slice.
pub fn trim_ascii(s: &str) -> (r: &str)
    ensures
        r@ == trim_sp(s@),
{
    let len = s.unicode_len();
    let mut a: usize = 0;
    loop
        invariant
            0 <= a <= len,
            len == s@.len(),
            forall|k: int| 0 <= k < a ==> is_space(s@[k]),
        ensures
            0 <= a <= len,
            forall|k: int| 0 <= k < a ==> is_space(s@[k]),
            a < len ==> !is_space(s@[a as int]),
        decreases len - a,
    {
        if a >= len {
            break;
        }
        let c = s.get_char(a);
        if !(c == ' ' || c == '\t' || c == '\n' || c == '\r') {
            break;
        }
        a += 1;
    }
    proof {
        lemma_trim_start_at(s@, a as int);
    }
    let mut b: usize = len;
    loop
        invariant
            a <= b <= len,
            len == s@.len(),
            forall|k: int| b <= k < len ==> is_space(s@[k]),
        ensures
            a <= b <= len,
            forall|k: int| b <= k < len ==> is_space(s@[k]),
            b > a ==> !is_space(s@[b - 1]),
        decreases b,
    {
        if b <= a {
            break;
        }
        let c = s.get_char(b - 1);
        if !(c == ' ' || c == '\t' || c == '\n' || c == '\r') {
            break;
        }
        b -= 1;
    }
    let r = s.substring_char(a, b);
    proof {
        let t = trim_start_sp(s@);
        assert(t =~= s@.skip(a as int));
        assert forall|k: int| b - a <= k < t.len() implies is_space(t[k]) by {
            assert(t[k] == s@[k + a]);
        }
        if b > a {
            assert(!is_space(t[b - a - 1]));
        }
        lemma_trim_end_at(t, b - a);
        assert(r@ =~= trim_end_sp(t));
    }
    r
}

/// Powers of ten.
pub open spec fn pow10(k: int) -> int
    decreases k
    when k >= 0
{
    if k <= 0 {
        1
    } else {
        10 * pow10(k - 1)
    }
}

/// A decimal number as the RGB form accepts it: an optional sign, then
/// digits with at most one point, at least one digit in all.
pub open spec fn valid_decimal(v: Seq<char>) -> bool {
    let body = decimal_body(v);
    match first_match(body, seq!['.']) {
        None => all_digits(body),
        Some(d) => {
            let ip = body.take(d);
            let fp = body.skip(d + 1);
            (forall|i: int| 0 <= i < ip.len() ==> is_digit(ip[i])) && (forall|i: int|
                0 <= i < fp.len() ==> is_digit(fp[i])) && ip.len() + fp.len() > 0
        },
    }
}

/// The digits of a decimal number, after the optional sign.
pub open spec fn decimal_body(v: Seq<char>) -> Seq<char> {
    if v.len() > 0 && (v[0] == '+' || v[0] == '-') {
        v.skip(1)
    } else {
        v
    }
}

/// Is the decimal negative?
pub open spec fn decimal_negative(v: Seq<char>) -> bool {
    v.len() > 0 && v[0] == '-'
}

/// Integer part of the decimal body.
pub open spec fn decimal_int_part(body: Seq<char>) -> Seq<char> {
    match first_match(body, seq!['.']) {
        None => body,
        Some(d) => body.take(d),
    }
}

/// Fractional digits of the decimal body, read to at most nine places.
pub open spec fn decimal_frac_part(body: Seq<char>) -> Seq<char> {
    match first_match(body, seq!['.']) {
        None => Seq::empty(),
        Some(d) => {
            let fp = body.skip(d + 1);
            if fp.len() <= 9 {
                fp
            } else {
                fp.take(9)
            }
        },
    }
}

/// One channel value scaled to 0..255: the decimal is clamped to the unit
/// interval, multiplied by 255 and rounded toward zero. An unparsable value
/// falls back to the default channel value 1.0, that is 255.
pub open spec fn scaled_of(v: Seq<char>) -> int {
    if !valid_decimal(v) {
        255
    } else {
        let body = decimal_body(v);
        let ip = decimal_int_part(body);
        let fp = decimal_frac_part(body);
        if decimal_negative(v) {
            0
        } else if dec_value(ip) >= 1 {
            255
        } else {
            (dec_value(fp) * 255) / pow10(fp.len() as int)
        }
    }
}

/// Runs through the comma-separated components, keeping the scaled value of
/// the last component labelled `tag=`; `cur` is the value so far.
pub open spec fn channel_rec(s: Seq<char>, tag: char, cur: int) -> int
    decreases s.len()
    via channel_rec_decreases
{
    match first_match(s, seq![',']) {
        None => {
            let t = trim_sp(s);
            if t.len() >= 2 && t[0] == tag && t[1] == '=' {
                scaled_of(t.skip(2))
            } else {
                cur
            }
        },
        Some(i) => {
            let t = trim_sp(s.take(i));
            let cur2 = if t.len() >= 2 && t[0] == tag && t[1] == '=' {
                scaled_of(t.skip(2))
            } else {
                cur
            };
            channel_rec(s.skip(i + 1), tag, cur2)
        },
    }
}

#[via_fn]
proof fn channel_rec_decreases(s: Seq<char>, tag: char, cur: int) {
    lemma_first_match_from_sound(s, seq![','], 0);
}

/// The value of one RGB channel of the whole component list: 255 (for 1.0)
/// unless a `tag=` component overrides it, last occurrence winning.
pub open spec fn channel_of(value: Seq<char>, tag: char) -> int {
    channel_rec(value, tag, 255)
}

/// The CSS color of the normalized RGB form `r=<v>,g=<v>,b=<v>`:
/// `rgb(R, G, B)` with each channel scaled to 0..255. Unspecified channels
/// default to 1.0.
pub open spec fn rgb_css(value: Seq<char>) -> Seq<char> {
    "rgb("@ + dec_str(channel_of(value, 'r')) + ", "@ + dec_str(channel_of(value, 'g')) + ", "@
        + dec_str(channel_of(value, 'b')) + ")"@
}

/// The CSS color a markup color value resolves to. The allow-list: the RGB
/// form (any value with `=` or `,`), six-digit hex with or without a leading
/// `#`, and a fixed palette of names matched case-insensitively. Everything
/// else resolves to `inherit`.
pub open spec fn color_css(value: Seq<char>) -> Seq<char> {
    if contains_sub(value, seq!['=']) || contains_sub(value, seq![',']) {
        rgb_css(value)
    } else if value.len() > 0 && value[0] == '#' {
        if is_hex6(value.skip(1)) {
            value
        } else {
            "inherit"@
        }
    } else {
        named_color_css(value)
    }
}

/// The palette of named colors, with a final try as bare hex digits.
pub open spec fn named_color_css(value: Seq<char>) -> Seq<char> {
    if eq_ci(value, "red"@) {
        "#ff0000"@
    } else if eq_ci(value, "green"@) {
        "#00ff00"@
    } else if eq_ci(value, "blue"@) {
        "#0000ff"@
    } else if eq_ci(value, "yellow"@) {
        "#ffff00"@
    } else if eq_ci(value, "orange"@) {
        "#ffa500"@
    } else if eq_ci(value, "pink"@) || eq_ci(value, "magenta"@) {
        "#ff00ff"@
    } else if eq_ci(value, "cyan"@) || eq_ci(value, "aqua"@) {
        "#00ffff"@
    } else if eq_ci(value, "white"@) {
        "#ffffff"@
    } else if eq_ci(value, "black"@) {
        "#000000"@
    } else if eq_ci(value, "gray"@) || eq_ci(value, "grey"@) {
        "#808080"@
    } else if eq_ci(value, "purple"@) {
        "#800080"@
    } else if eq_ci(value, "brown"@) {
        "#8b4513"@
    } else if eq_ci(value, "acid"@) {
        "#b0ff00"@
    } else if eq_ci(value, "default"@) {
        "inherit"@
    } else if is_hex6(value) {
        seq!['#'] + value
    } else {
        "inherit"@
    }
}

/// The CSS style a markup font value resolves to: a fixed table of known
/// font names, matched case-insensitively; anything unknown resolves to no
/// style at all.
pub open spec fn font_css(value: Seq<char>) -> Seq<char> {
    if eq_ci(value, "default"@) {
        ""@
    } else if eq_ci(value, "default-bold"@) {
        "font-weight: 700"@
    } else if eq_ci(value, "default-semibold"@) {
        "font-weight: 600"@
    } else if eq_ci(value, "default-small"@) {
        "font-size: 0.85em"@
    } else if eq_ci(value, "default-small-bold"@) {
        "font-size: 0.85em; font-weight: 700"@
    } else if eq_ci(value, "default-small-semibold"@) {
        "font-size: 0.85em; font-weight: 600"@
    } else if eq_ci(value, "default-large"@) {
        "font-size: 1.2em"@
    } else if eq_ci(value, "default-large-bold"@) {
        "font-size: 1.2em; font-weight: 700"@
    } else if eq_ci(value, "default-large-semibold"@) {
        "font-size: 1.2em; font-weight: 600"@
    } else if eq_ci(value, "heading-1"@) {
        "font-size: 1.5em; font-weight: 700"@
    } else if eq_ci(value, "heading-2"@) {
        "font-size: 1.25em; font-weight: 700"@
    } else {
        ""@
    }
}

/// Resolves a markup font name to its CSS style.
pub fn factorio_font_to_css(font: &str) -> (r: String)
    ensures
        r@ == font_css(font@),
{
    if eq_ignore_ascii(font, "default") {
        String::from_str("")
    } else if eq_ignore_ascii(font, "default-bold") {
        String::from_str("font-weight: 700")
    } else if eq_ignore_ascii(font, "default-semibold") {
        String::from_str("font-weight: 600")
    } else if eq_ignore_ascii(font, "default-small") {
        String::from_str("font-size: 0.85em")
    } else if eq_ignore_ascii(font, "default-small-bold") {
        String::from_str("font-size: 0.85em; font-weight: 700")
    } else if eq_ignore_ascii(font, "default-small-semibold") {
        String::from_str("font-size: 0.85em; font-weight: 600")
    } else if eq_ignore_ascii(font, "default-large") {
        String::from_str("font-size: 1.2em")
    } else if eq_ignore_ascii(font, "default-large-bold") {
        String::from_str("font-size: 1.2em; font-weight: 700")
    } else if eq_ignore_ascii(font, "default-large-semibold") {
        String::from_str("font-size: 1.2em; font-weight: 600")
    } else if eq_ignore_ascii(font, "heading-1") {
        String::from_str("font-size: 1.5em; font-weight: 700")
    } else if eq_ignore_ascii(font, "heading-2") {
        String::from_str("font-size: 1.25em; font-weight: 700")
    } else {
        String::from_str("")
    }
}

/// The scaled value of one channel's decimal text.
fn parse_scaled(v: &str) -> (r: u64)
    ensures
        r == scaled_of(v@),
        r <= 255,
{
    let len = v.unicode_len();
    let start: usize = if len > 0 && {
        let c = v.get_char(0);
        c == '+' || c == '-'
    } {
        1
    } else {
        0
    };
    let negative = len > 0 && v.get_char(0) == '-';
    let ghost body = decimal_body(v@);
    proof {
        assert(body =~= v@.skip(start as int));
    }
    let body_str = v.substring_char(start, len);
    proof {
        assert(body_str@ =~= body);
    }
    // locate the decimal point
    let point = find_char(body_str, '.');
    proof {
        lemma_first_match_from_sound(body, seq!['.'], 0);
    }
    let (ip_to, fp_from): (usize, usize) = match point {
        None => (len - start, len - start),
        Some(d) => (d, d + 1),
    };
    let bl = len - start;
    // check digits and whether the integer part is all zeroes
    let mut i: usize = 0;
    let mut int_zero = true;
    while i < ip_to
        invariant
            0 <= i <= ip_to <= bl,
            bl == body.len(),
            body == body_str@,
            body == decimal_body(v@),
            match point {
                Some(d) => first_match(body, seq!['.']) == Some(d as int) && ip_to == d && fp_from
                    == d + 1 && (d as int) + 1 <= bl,
                None => first_match(body, seq!['.']) is None && ip_to == bl && fp_from == bl,
            },
            forall|k: int| 0 <= k < i ==> is_digit(body[k]),
            int_zero == (forall|k: int| 0 <= k < i ==> body[k] == '0'),
        decreases ip_to - i,
    {
        let c = body_str.get_char(i);
        if !('0' <= c && c <= '9') {
            proof {
                assert(body[i as int] == c);
                if point is Some {
                    assert(first_match(body, seq!['.']) == Some(ip_to as int));
                    assert(i < ip_to);
                }
                lemma_invalid_decimal(v@, i as int);
            }
            return 255;
        }
        if c != '0' {
            int_zero = false;
        }
        i += 1;
    }
    let mut frac: u64 = 0;
    let mut fl: usize = 0;
    let mut j: usize = fp_from;
    while j < bl
        invariant
            fp_from <= j <= bl,
            bl == body.len(),
            body == body_str@,
            body == decimal_body(v@),
            match point {
                Some(d) => first_match(body, seq!['.']) == Some(d as int) && ip_to == d && fp_from
                    == d + 1 && (d as int) + 1 <= bl,
                None => first_match(body, seq!['.']) is None && ip_to == bl && fp_from == bl,
            },
            fl == if j - fp_from <= 9 { j - fp_from } else { 9 },
            forall|k: int| fp_from <= k < j ==> is_digit(body[k]),
            frac == dec_value(clip9(body.subrange(fp_from as int, j as int))),
            frac < pow10(fl as int),
            fl <= 9,
        decreases bl - j,
    {
        let c = body_str.get_char(j);
        if !('0' <= c && c <= '9') {
            proof {
                assert(body[j as int] == c);
                if point is Some {
                    assert(first_match(body, seq!['.']) == Some(ip_to as int));
                    assert(j > ip_to);
                }
                lemma_invalid_decimal(v@, j as int);
            }
            return 255;
        }
        proof {
            lemma_clip9_step(body.subrange(fp_from as int, j as int + 1), fl as int);
            assert(body.subrange(fp_from as int, j + 1).drop_last() =~= body.subrange(
                fp_from as int,
                j as int,
            ));
        }
        if fl < 9 {
            let d = (c as u32 - '0' as u32) as u64;
            proof {
                lemma_pow10_mono(fl as int);
            }
            frac = frac * 10 + d;
            fl += 1;
        }
        j += 1;
    }
    if ip_to == 0 && fp_from >= bl {
        // no digit at all
        proof {
            lemma_no_digits_invalid(v@);
        }
        return 255;
    }
    proof {
        lemma_valid_decimal(v@, ip_to as int, fp_from as int);
    }
    proof {
        assert(decimal_int_part(body) =~= body.take(ip_to as int));
    }
    if negative {
        return 0;
    }
    if !int_zero {
        proof {
            let ip = decimal_int_part(body);
            let k = choose|k: int| 0 <= k < ip_to && body[k] != '0';
            assert(ip[k] != '0');
            lemma_nonzero_digits(ip);
        }
        return 255;
    }
    proof {
        lemma_zero_digits(decimal_int_part(body));
        assert(clip9(body.subrange(fp_from as int, bl as int)) =~= decimal_frac_part(body));
    }
    let p = pow10_u64(fl);
    proof {
        lemma_frac_bound(fl as int);
        assert((frac as int) * 255 < (p as int) * 255) by (nonlinear_arith)
            requires
                (frac as int) < (p as int),
                p >= 1,
        ;
        assert(((frac as int) * 255) / (p as int) < 256) by (nonlinear_arith)
            requires
                (frac as int) * 255 < (p as int) * 255,
                (p as int) >= 1,
        ;
    }
    (frac * 255) / p
}

/// The first nine places of a digit sequence.
pub open spec fn clip9(s: Seq<char>) -> Seq<char> {
    if s.len() <= 9 {
        s
    } else {
        s.take(9)
    }
}

proof fn lemma_clip9_step(s: Seq<char>, fl: int)
    requires
        s.len() > 0,
        fl == if s.len() - 1 <= 9 { s.len() - 1 } else { 9 as int },
    ensures
        fl < 9 ==> clip9(s) == clip9(s.drop_last()).push(s.last()),
        fl >= 9 ==> clip9(s) == clip9(s.drop_last()),
    decreases s.len(),
{
    if fl < 9 {
        assert(clip9(s) =~= clip9(s.drop_last()).push(s.last()));
    } else {
        assert(s.len() - 1 >= 9);
        assert(clip9(s.drop_last()) =~= s.drop_last().take(9));
        assert(clip9(s) =~= s.take(9));
        assert(s.take(9) =~= s.drop_last().take(9));
    }
}

proof fn lemma_pow10_mono(k: int)
    requires
        0 <= k <= 8,
    ensures
        pow10(k + 1) == 10 * pow10(k),
        pow10(k) >= 1,
        pow10(9) <= 1000000000,
        pow10(k) <= pow10(9),
        pow10(k + 1) <= 1000000000,
    decreases 9 - k,
{
    reveal_with_fuel(pow10, 11);
    assert(pow10(0) == 1);
    assert(pow10(9) == 1000000000);
    if k < 8 {
        lemma_pow10_mono(k + 1);
    } else {
        assert(pow10(8) == 100000000);
    }
}

fn pow10_u64(k: usize) -> (r: u64)
    requires
        k <= 9,
    ensures
        r == pow10(k as int),
        r >= 1,
{
    let mut r: u64 = 1;
    let mut i: usize = 0;
    while i < k
        invariant
            0 <= i <= k <= 9,
            r == pow10(i as int),
            1 <= r <= 1000000000,
        decreases k - i,
    {
        proof {
            if i < 9 {
                lemma_pow10_mono(i as int);
            }
        }
        r = r * 10;
        i += 1;
    }
    r
}

proof fn lemma_frac_bound(fl: int)
    requires
        0 <= fl <= 9,
    ensures
        pow10(fl) >= 1,
        pow10(fl) <= 1000000000,
{
    if fl <= 8 {
        lemma_pow10_mono(fl);
    } else {
        reveal_with_fuel(pow10, 11);
        assert(pow10(9) == 1000000000);
    }
}

/// A non-digit inside the body makes the decimal invalid.
proof fn lemma_invalid_decimal(v: Seq<char>, bad: int)
    requires
        ({
            let body = decimal_body(v);
            &&& 0 <= bad < body.len()
            &&& !is_digit(body[bad])
            &&& first_match(body, seq!['.']) != Some(bad)
        }),
    ensures
        !valid_decimal(v),
{
    let body = decimal_body(v);
    lemma_first_match_from_sound(body, seq!['.'], 0);
    match first_match(body, seq!['.']) {
        None => {
            assert(!is_digit(body[bad]));
        },
        Some(d) => {
            if bad < d {
                if valid_decimal(v) {
                    assert(is_digit(body.take(d)[bad]));
                }
            } else if bad == d {
                assert(false);
            } else {
                if valid_decimal(v) {
                    assert(is_digit(body.skip(d + 1)[bad - d - 1]));
                }
            }
        },
    }
}

/// A body with no digits in it is not a valid decimal.
proof fn lemma_no_digits_invalid(v: Seq<char>)
    requires
        ({
            let body = decimal_body(v);
            match first_match(body, seq!['.']) {
                None => body.len() == 0,
                Some(d) => d == 0 && d + 1 >= body.len(),
            }
        }),
    ensures
        !valid_decimal(v),
{
    let body = decimal_body(v);
    match first_match(body, seq!['.']) {
        None => {
            assert(!all_digits(body));
        },
        Some(d) => {
            assert(body.take(d).len() + body.skip(d + 1).len() == 0);
        },
    }
}

/// All characters around the point are digits, so the decimal is valid.
proof fn lemma_valid_decimal(v: Seq<char>, ip_to: int, fp_from: int)
    requires
        ({
            let body = decimal_body(v);
            &&& 0 <= ip_to <= body.len()
            &&& fp_from <= body.len()
            &&& match first_match(body, seq!['.']) {
                None => ip_to == body.len() && fp_from == body.len(),
                Some(d) => ip_to == d && fp_from == d + 1,
            }
            &&& forall|k: int| 0 <= k < ip_to ==> is_digit(body[k])
            &&& forall|k: int| fp_from <= k < body.len() ==> is_digit(body[k])
            &&& ip_to > 0 || fp_from < body.len()
        }),
    ensures
        valid_decimal(v),
{
    let body = decimal_body(v);
    match first_match(body, seq!['.']) {
        None => {
            assert(all_digits(body));
        },
        Some(d) => {
            let ip = body.take(d);
            let fp = body.skip(d + 1);
            assert(forall|i: int| 0 <= i < ip.len() ==> is_digit(ip[i]));
            assert(forall|i: int| 0 <= i < fp.len() ==> is_digit(fp[i]));
        },
    }
}

/// A digit string with a non-zero digit has a value of at least one.
proof fn lemma_nonzero_digits(s: Seq<char>)
    requires
        forall|k: int| 0 <= k < s.len() ==> is_digit(s[k]),
        exists|k: int| 0 <= k < s.len() && s[k] != '0',
    ensures
        dec_value(s) >= 1,
    decreases s.len(),
{
    crate::text::lemma_dec_value_nonneg(s.drop_last());
    if s.last() != '0' {
        assert(digit_val(s.last()) >= 1);
    } else {
        let k = choose|k: int| 0 <= k < s.len() && s[k] != '0';
        assert(s.drop_last()[k] != '0');
        lemma_nonzero_digits(s.drop_last());
    }
}

/// A string of zero digits has value zero.
proof fn lemma_zero_digits(s: Seq<char>)
    requires
        forall|k: int| 0 <= k < s.len() ==> s[k] == '0',
    ensures
        dec_value(s) == 0,
    decreases s.len(),
{
    if s.len() > 0 {
        lemma_zero_digits(s.drop_last());
    }
}

/// The scaled value of the channel named `tag` in the remaining component
/// text, where `cur` is the best value found so far.
fn channel_from(s: &str, tag: char, cur: u64) -> (r: u64)
    requires
        cur <= 255,
    ensures
        r == channel_rec(s@, tag, cur as int),
        r <= 255,
    decreases s@.len(),
{
    proof {
        lemma_first_match_from_sound(s@, seq![','], 0);
    }
    let len = s.unicode_len();
    match find_char(s, ',') {
        None => {
            let t = trim_ascii(s);
            if t.unicode_len() >= 2 && t.get_char(0) == tag && t.get_char(1) == '=' {
                let rest = t.substring_char(2, t.unicode_len());
                proof {
                    assert(rest@ =~= trim_sp(s@).skip(2));
                }
                parse_scaled(rest)
            } else {
                cur
            }
        },
        Some(i) => {
            let part = s.substring_char(0, i);
            proof {
                assert(part@ =~= s@.take(i as int));
            }
            let t = trim_ascii(part);
            let cur2: u64 = if t.unicode_len() >= 2 && t.get_char(0) == tag && t.get_char(1)
                == '=' {
                let rest = t.substring_char(2, t.unicode_len());
                proof {
                    assert(rest@ =~= trim_sp(s@.take(i as int)).skip(2));
                }
                parse_scaled(rest)
            } else {
                cur
            };
            let remaining = s.substring_char(i + 1, len);
            proof {
                assert(remaining@ =~= s@.skip(i as int + 1));
            }
            channel_from(remaining, tag, cur2)
        },
    }
}

/// A digit string's value stays below the power of ten of its length.
proof fn lemma_frac_digit_bound(s: Seq<char>)
    requires
        forall|k: int| 0 <= k < s.len() ==> is_digit(s[k]),
    ensures
        dec_value(s) < pow10(s.len() as int),
    decreases s.len(),
{
    if s.len() == 0 {
    } else {
        lemma_frac_digit_bound(s.drop_last());
        assert(pow10(s.len() as int) == 10 * pow10(s.len() - 1));
        assert(dec_value(s) == dec_value(s.drop_last()) * 10 + digit_val(s.last()));
        assert(dec_value(s.drop_last()) * 10 + digit_val(s.last()) < pow10(s.len() as int))
            by (nonlinear_arith)
            requires
                dec_value(s.drop_last()) < pow10(s.len() - 1),
                digit_val(s.last()) <= 9,
                pow10(s.len() as int) == 10 * pow10(s.len() - 1),
        ;
    }
}

/// Resolves the RGB form `r=<v>,g=<v>,b=<v>` to an `rgb(R, G, B)` CSS color.
pub fn parse_rgb_color(color: &str) -> (r: String)
    ensures
        r@ == rgb_css(color@),
{
    let rv = channel_from(color, 'r', 255);
    let gv = channel_from(color, 'g', 255);
    let bv = channel_from(color, 'b', 255);
    let mut out = String::from_str("rgb(");
    append_dec(&mut out, rv);
    out.append(", ");
    append_dec(&mut out, gv);
    out.append(", ");
    append_dec(&mut out, bv);
    out.append(")");
    proof {
        assert(out@ =~= rgb_css(color@));
    }
    out
}

/// Resolves a markup color value to a CSS color.
pub fn factorio_color_to_css(color: &str) -> (r: String)
    ensures
        r@ == color_css(color@),
{
    if has_char(color, '=') || has_char(color, ',') {
        return parse_rgb_color(color);
    }
    let len = color.unicode_len();
    if len > 0 && color.get_char(0) == '#' {
        let rest = color.substring_char(1, len);
        proof {
            assert(rest@ =~= color@.skip(1));
        }
        if is_hex6_str(rest) {
            return color.to_owned();
        }
        return String::from_str("inherit");
    }
    if eq_ignore_ascii(color, "red") {
        String::from_str("#ff0000")
    } else if eq_ignore_ascii(color, "green") {
        String::from_str("#00ff00")
    } else if eq_ignore_ascii(color, "blue") {
        String::from_str("#0000ff")
    } else if eq_ignore_ascii(color, "yellow") {
        String::from_str("#ffff00")
    } else if eq_ignore_ascii(color, "orange") {
        String::from_str("#ffa500")
    } else if eq_ignore_ascii(color, "pink") || eq_ignore_ascii(color, "magenta") {
        String::from_str("#ff00ff")
    } else if eq_ignore_ascii(color, "cyan") || eq_ignore_ascii(color, "aqua") {
        String::from_str("#00ffff")
    } else if eq_ignore_ascii(color, "white") {
        String::from_str("#ffffff")
    } else if eq_ignore_ascii(color, "black") {
        String::from_str("#000000")
    } else if eq_ignore_ascii(color, "gray") || eq_ignore_ascii(color, "grey") {
        String::from_str("#808080")
    } else if eq_ignore_ascii(color, "purple") {
        String::from_str("#800080")
    } else if eq_ignore_ascii(color, "brown") {
        String::from_str("#8b4513")
    } else if eq_ignore_ascii(color, "acid") {
        String::from_str("#b0ff00")
    } else if eq_ignore_ascii(color, "default") {
        String::from_str("inherit")
    } else if is_hex6_str(color) {
        let mut out = String::from_str("#");
        out.append(color);
        proof {
            reveal_strlit("#");
            assert(out@ =~= seq!['#'] + color@);
        }
        out
    } else {
        String::from_str("inherit")
    }
}

/// Exactly six hexadecimal digits?
fn is_hex6_str(s: &str) -> (r: bool)
    ensures
        r == is_hex6(s@),
{
    let len = s.unicode_len();
    if len != 6 {
        return false;
    }
    let mut i: usize = 0;
    while i < len
        invariant
            0 <= i <= len,
            len == s@.len(),
            forall|k: int| 0 <= k < i ==> is_hex_digit(s@[k]),
        decreases len - i,
    {
        let c = s.get_char(i);
        if !(('0' <= c && c <= '9') || ('a' <= c && c <= 'f') || ('A' <= c && c <= 'F')) {
            return false;
        }
        i += 1;
    }
    true
}

} // verus!

//! The rich-text markup parser: turns a string in the restricted
//! `[color=...]...[/color]` / `[font=...]...[/font]` dialect into a tree of
//! styled spans, safe for structured rendering. Tags nest; newlines become
//! explicit line-break spans; a malformed or unterminated tag is no error:
//! its opening bracket is emitted as plain text and scanning resumes one
//! character past it, so no user content is ever swallowed.

use crate::style::{color_css, factorio_color_to_css, factorio_font_to_css, font_css};
use crate::text::{
    find_char, find_sub, first_match, lemma_first_match_from_sound, matches_at,
};
use vstd::prelude::*;
use vstd::string::StrSliceExecFns;
use vstd::string::StringExecFns;

verus! {

broadcast use vstd::std_specs::vec::group_vec_axioms;

/// One piece of parsed markup: plain text, an explicit line break, or a
/// styled group of child spans. A color span carries the resolved CSS
/// color, a font span the resolved CSS style.
#[derive(Debug, PartialEq)]
pub enum Span {
    Text(String),
    LineBreak,
    Color(String, Vec<Span>),
    Font(String, Vec<Span>),
}

/// Spec-level model of a span.
pub enum SpanModel {
    Text(Seq<char>),
    Break,
    Color(Seq<char>, Seq<SpanModel>),
    Font(Seq<char>, Seq<SpanModel>),
}

impl Span {
    /// The model of this span.
    pub open spec fn model(&self) -> SpanModel
        decreases self,
    {
        match self {
            Span::Text(s) => SpanModel::Text(s@),
            Span::LineBreak => SpanModel::Break,
            Span::Color(c, children) => SpanModel::Color(c@, vec_models_from(children, 0)),
            Span::Font(f, children) => SpanModel::Font(f@, vec_models_from(children, 0)),
        }
    }
}

/// The models of a span vector's elements from position `i` on; the mutual
/// recursion with [`Span::model`] descends along the vector itself.
pub open spec fn vec_models_from(v: &Vec<Span>, i: int) -> Seq<SpanModel>
    decreases v, v@.len() - i,
{
    if i < 0 || i >= v@.len() {
        Seq::empty()
    } else {
        seq![v[i].model()] + vec_models_from(v, i + 1)
    }
}

/// The models of a sequence of spans.
pub open spec fn models_of(spans: Seq<Span>) -> Seq<SpanModel> {
    spans.map_values(|sp: Span| sp.model())
}

proof fn lemma_vec_models(v: &Vec<Span>, i: int)
    requires
        0 <= i <= v@.len(),
    ensures
        vec_models_from(v, i) == models_of(v@.skip(i)),
    decreases v@.len() - i,
{
    if i == v@.len() {
        assert(vec_models_from(v, i) =~= models_of(v@.skip(i)));
    } else {
        lemma_vec_models(v, i + 1);
        assert(v@.skip(i).skip(1) =~= v@.skip(i + 1));
        assert(vec_models_from(v, i) =~= models_of(v@.skip(i)));
    }
}

/// A vector's models, walked from its head, are its sequence's models.
proof fn lemma_vec_models_all(v: &Vec<Span>)
    ensures
        vec_models_from(v, 0) == models_of(v@),
{
    lemma_vec_models(v, 0);
    assert(v@.skip(0) =~= v@);
}

/// The two tag families of the dialect.
#[derive(Debug, Clone, Copy, PartialEq, Eq)]
pub enum TagKind {
    Color,
    Font,
}

/// The opening pattern of a tag family.
pub open spec fn open_pat(kind: TagKind) -> Seq<char> {
    match kind {
        TagKind::Color => seq!['[', 'c', 'o', 'l', 'o', 'r', '='],
        TagKind::Font => seq!['[', 'f', 'o', 'n', 't', '='],
    }
}

/// The closing pattern of a tag family.
pub open spec fn close_pat(kind: TagKind) -> Seq<char> {
    match kind {
        TagKind::Color => seq!['[', '/', 'c', 'o', 'l', 'o', 'r', ']'],
        TagKind::Font => seq!['[', '/', 'f', 'o', 'n', 't', ']'],
    }
}

/// The earliest tag opener in `s`: the position and family of the first
/// `[color=` or `[font=`, the color family winning a race it starts earlier.
pub open spec fn first_tag(s: Seq<char>) -> Option<(int, TagKind)> {
    match (first_match(s, open_pat(TagKind::Color)), first_match(s, open_pat(TagKind::Font))) {
        (Some(c), Some(f)) => if c < f {
            Some((c, TagKind::Color))
        } else {
            Some((f, TagKind::Font))
        },
        (Some(c), None) => Some((c, TagKind::Color)),
        (None, Some(f)) => Some((f, TagKind::Font)),
        (None, None) => None,
    }
}

/// Plain text as spans: each literal newline becomes a line-break span
/// between the text pieces around it.
pub open spec fn text_spans(s: Seq<char>) -> Seq<SpanModel>
    decreases s.len()
    via text_spans_decreases
{
    match first_match(s, seq!['\n']) {
        None => seq![SpanModel::Text(s)],
        Some(i) => seq![SpanModel::Text(s.take(i)), SpanModel::Break] + text_spans(s.skip(i + 1)),
    }
}

#[via_fn]
proof fn text_spans_decreases(s: Seq<char>) {
    lemma_first_match_from_sound(s, seq!['\n'], 0);
}

/// The parse of a markup string.
///
/// Scanning finds the earliest tag opener. Text before it becomes plain
/// spans. A well-formed tag (its opener closed by `]`, and a matching close
/// tag later) becomes one styled span holding the recursive parse of the
/// text between, with the attribute value resolved through the allow-list
/// resolvers; parsing then resumes after the close tag. A malformed tag
/// (no `]`, or no close tag) degrades gracefully: the single `[` is emitted
/// as plain text and scanning resumes one character past it.
pub open spec fn parse_spans(s: Seq<char>) -> Seq<SpanModel>
    decreases s.len()
    via parse_spans_decreases
{
    if s.len() == 0 {
        Seq::empty()
    } else {
        match first_tag(s) {
            None => text_spans(s),
            Some((start, kind)) => {
                let before: Seq<SpanModel> = if start > 0 {
                    text_spans(s.take(start))
                } else {
                    Seq::empty()
                };
                let after_open = s.skip(start + open_pat(kind).len());
                match first_match(after_open, seq![']']) {
                    None => before + text_spans(seq!['[']) + parse_spans(s.skip(start + 1)),
                    Some(tag_end) => {
                        let value = after_open.take(tag_end);
                        let after_tag = after_open.skip(tag_end + 1);
                        match first_match(after_tag, close_pat(kind)) {
                            None => before + text_spans(seq!['[']) + parse_spans(s.skip(start + 1)),
                            Some(close) => {
                                let content = after_tag.take(close);
                                let rest = after_tag.skip(close + close_pat(kind).len());
                                let styled = match kind {
                                    TagKind::Color => SpanModel::Color(
                                        color_css(value),
                                        parse_spans(content),
                                    ),
                                    TagKind::Font => SpanModel::Font(
                                        font_css(value),
                                        parse_spans(content),
                                    ),
                                };
                                before + seq![styled] + parse_spans(rest)
                            },
                        }
                    },
                }
            },
        }
    }
}

#[via_fn]
proof fn parse_spans_decreases(s: Seq<char>) {
    if s.len() > 0 {
        lemma_first_match_from_sound(s, open_pat(TagKind::Color), 0);
        lemma_first_match_from_sound(s, open_pat(TagKind::Font), 0);
        match first_tag(s) {
            None => {},
            Some((start, kind)) => {
                let after_open = s.skip(start + open_pat(kind).len());
                lemma_first_match_from_sound(after_open, seq![']'], 0);
                match first_match(after_open, seq![']']) {
                    None => {},
                    Some(tag_end) => {
                        let after_tag = after_open.skip(tag_end + 1);
                        lemma_first_match_from_sound(after_tag, close_pat(kind), 0);
                    },
                }
            },
        }
    }
}

/// Finds the next tag opener in the text: the earliest `[color=` or
/// `[font=`.
pub fn find_next_tag(text: &str) -> (r: Option<(usize, TagKind)>)
    ensures
        match r {
            Some((i, k)) => first_tag(text@) == Some((i as int, k)),
            None => first_tag(text@) is None,
        },
{
    proof {
        reveal_strlit("[color=");
        reveal_strlit("[font=");
        assert("[color="@ =~= open_pat(TagKind::Color));
        assert("[font="@ =~= open_pat(TagKind::Font));
    }
    let color_pos = find_sub(text, "[color=");
    let font_pos = find_sub(text, "[font=");
    match (color_pos, font_pos) {
        (Some(c), Some(f)) => if c < f {
            Some((c, TagKind::Color))
        } else {
            Some((f, TagKind::Font))
        },
        (Some(c), None) => Some((c, TagKind::Color)),
        (None, Some(f)) => Some((f, TagKind::Font)),
        (None, None) => None,
    }
}

proof fn lemma_models_add(a: Seq<Span>, b: Seq<Span>)
    ensures
        models_of(a + b) == models_of(a) + models_of(b),
{
    assert(models_of(a + b) =~= models_of(a) + models_of(b));
}

/// Converts plain text to spans, turning each newline into a line break.
pub fn text_with_newlines(text: &str) -> (r: Vec<Span>)
    ensures
        models_of(r@) == text_spans(text@),
    decreases text@.len(),
{
    proof {
        lemma_first_match_from_sound(text@, seq!['\n'], 0);
    }
    match find_char(text, '\n') {
        None => {
            let mut v: Vec<Span> = Vec::new();
            v.push(Span::Text(text.to_owned()));
            proof {
                assert(models_of(v@) =~= text_spans(text@));
            }
            v
        },
        Some(i) => {
            let len = text.unicode_len();
            let before = text.substring_char(0, i);
            let after = text.substring_char(i + 1, len);
            proof {
                assert(before@ =~= text@.take(i as int));
                assert(after@ =~= text@.skip(i as int + 1));
            }
            let mut v: Vec<Span> = Vec::new();
            v.push(Span::Text(before.to_owned()));
            v.push(Span::LineBreak);
            let mut tail = text_with_newlines(after);
            v.append(&mut tail);
            proof {
                assert(models_of(v@) =~= text_spans(text@));
            }
            v
        },
    }
}

/// Parses a markup string into its spans: the executable form of
/// [`parse_spans`].
pub fn parse_rich_text(text: &str) -> (r: Vec<Span>)
    ensures
        models_of(r@) == parse_spans(text@),
    decreases text@.len(), 1int,
{
    let len = text.unicode_len();
    if len == 0 {
        let v: Vec<Span> = Vec::new();
        proof {
            assert(models_of(v@) =~= parse_spans(text@));
        }
        return v;
    }
    match find_next_tag(text) {
        None => {
            text_with_newlines(text)
        },
        Some((start, kind)) => {
            proof {
                lemma_first_match_from_sound(text@, open_pat(TagKind::Color), 0);
                lemma_first_match_from_sound(text@, open_pat(TagKind::Font), 0);
            }
            let op_len: usize = match kind {
                TagKind::Color => 7,
                TagKind::Font => 6,
            };
            proof {
                assert(open_pat(kind).len() == op_len as int);
                assert(matches_at(text@, open_pat(kind), start as int));
            }
            let mut result: Vec<Span> = Vec::new();
            if start > 0 {
                let before_str = text.substring_char(0, start);
                proof {
                    assert(before_str@ =~= text@.take(start as int));
                }
                let mut before = text_with_newlines(before_str);
                result.append(&mut before);
            }
            let ghost before_models: Seq<SpanModel> = if start > 0 {
                text_spans(text@.take(start as int))
            } else {
                Seq::empty()
            };
            proof {
                assert(models_of(result@) =~= before_models);
            }
            let after_open = text.substring_char(start + op_len, len);
            proof {
                assert(after_open@ =~= text@.skip(start + op_len));
                lemma_first_match_from_sound(after_open@, seq![']'], 0);
            }
            match find_char(after_open, ']') {
                None => {
                    fallback_tail(text, start, result)
                },
                Some(tag_end) => {
                    let ao_len = after_open.unicode_len();
                    let value_str = after_open.substring_char(0, tag_end);
                    let after_tag = after_open.substring_char(tag_end + 1, ao_len);
                    proof {
                        assert(value_str@ =~= after_open@.take(tag_end as int));
                        assert(after_tag@ =~= after_open@.skip(tag_end as int + 1));
                        reveal_strlit("[/color]");
                        reveal_strlit("[/font]");
                        assert("[/color]"@ =~= close_pat(TagKind::Color));
                        assert("[/font]"@ =~= close_pat(TagKind::Font));
                        lemma_first_match_from_sound(after_tag@, close_pat(kind), 0);
                    }
                    let close_search = match kind {
                        TagKind::Color => find_sub(after_tag, "[/color]"),
                        TagKind::Font => find_sub(after_tag, "[/font]"),
                    };
                    match close_search {
                        None => {
                            fallback_tail(text, start, result)
                        },
                        Some(close) => {
                            let close_len: usize = match kind {
                                TagKind::Color => 8,
                                TagKind::Font => 7,
                            };
                            proof {
                                assert(close_pat(kind).len() == close_len as int);
                            }
                            let at_len = after_tag.unicode_len();
                            let content = after_tag.substring_char(0, close);
                            let rest = after_tag.substring_char(close + close_len, at_len);
                            proof {
                                assert(content@ =~= after_tag@.take(close as int));
                                assert(rest@ =~= after_tag@.skip(close + close_len));
                            }
                            let inner = parse_rich_text(content);
                            let styled = match kind {
                                TagKind::Color => Span::Color(factorio_color_to_css(value_str), inner),
                                TagKind::Font => Span::Font(factorio_font_to_css(value_str), inner),
                            };
                            proof {
                                lemma_vec_models_all(&inner);
                            }
                            result.push(styled);
                            let mut tail = parse_rich_text(rest);
                            result.append(&mut tail);
                            proof {
                                assert(models_of(result@) =~= parse_spans(text@));
                            }
                            result
                        },
                    }
                },
            }
        },
    }
}

/// The graceful-degradation path: emits the single `[` of a malformed tag
/// as plain text and resumes parsing one character past it.
fn fallback_tail(text: &str, start: usize, result: Vec<Span>) -> (r: Vec<Span>)
    requires
        (start as int) < text@.len(),
    ensures
        models_of(r@) == models_of(result@) + text_spans(seq!['[']) + parse_spans(
            text@.skip(start as int + 1),
        ),
    decreases text@.len(), 0int,
{
    let ghost orig = result@;
    let mut result = result;
    let len = text.unicode_len();
    let bracket = String::from_str("[");
    proof {
        reveal_strlit("[");
        assert forall|k: int| 0 <= k < 2 implies !matches_at(seq!['['], seq!['\n'], k) by {
            if matches_at(seq!['['], seq!['\n'], k) {
                assert(seq!['['].subrange(k, k + 1)[0] == '\n');
            }
        }
        crate::text::lemma_first_match_none(seq!['['], seq!['\n']);
        assert(text_spans(seq!['[']) =~= seq![SpanModel::Text(seq!['['])]);
    }
    result.push(Span::Text(bracket));
    let rest = text.substring_char(start + 1, len);
    proof {
        assert(rest@ =~= text@.skip(start as int + 1));
    }
    let mut tail = parse_rich_text(rest);
    result.append(&mut tail);
    proof {
        assert(bracket@ =~= seq!['[']);
        assert(models_of(result@) =~= models_of(orig) + text_spans(seq!['[']) + parse_spans(
            text@.skip(start as int + 1),
        ));
    }
    result
}

} // verus!

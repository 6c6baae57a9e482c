use factorio_browser::markup::{find_next_tag, parse_rich_text, text_with_newlines, Span, TagKind};

#[test]
fn plain_text_passes_through() {
    let spans = parse_rich_text("just a server");
    assert_eq!(spans, vec![Span::Text("just a server".to_string())]);
}

#[test]
fn empty_input_yields_no_spans() {
    let spans = parse_rich_text("");
    assert_eq!(spans, Vec::<Span>::new());
}

#[test]
fn color_tag_becomes_styled_span() {
    let spans = parse_rich_text("Hello [color=red]World[/color]!");
    assert_eq!(
        spans,
        vec![
            Span::Text("Hello ".to_string()),
            Span::Color("#ff0000".to_string(), vec![Span::Text("World".to_string())]),
            Span::Text("!".to_string()),
        ]
    );
}

#[test]
fn unterminated_tag_degrades_to_literal_text() {
    let spans = parse_rich_text("[color=red]unterminated");
    assert_eq!(
        spans,
        vec![
            Span::Text("[".to_string()),
            Span::Text("color=red]unterminated".to_string()),
        ]
    );
    // the pieces concatenate back to the input: nothing was swallowed
    let flat: String = spans
        .iter()
        .map(|s| match s {
            Span::Text(t) => t.clone(),
            _ => String::new(),
        })
        .collect();
    assert_eq!(flat, "[color=red]unterminated");
}

#[test]
fn tag_without_closing_bracket_degrades() {
    let spans = parse_rich_text("x[color=red");
    assert_eq!(
        spans,
        vec![
            Span::Text("x".to_string()),
            Span::Text("[".to_string()),
            Span::Text("color=red".to_string()),
        ]
    );
}

#[test]
fn nested_tags_parse_recursively() {
    let spans = parse_rich_text("[color=red]a[font=default-bold]b[/font]c[/color]");
    assert_eq!(
        spans,
        vec![Span::Color(
            "#ff0000".to_string(),
            vec![
                Span::Text("a".to_string()),
                Span::Font("font-weight: 700".to_string(), vec![Span::Text("b".to_string())]),
                Span::Text("c".to_string()),
            ],
        )]
    );
}

#[test]
fn font_tag_resolves_style() {
    let spans = parse_rich_text("[font=heading-1]Title[/font]");
    assert_eq!(
        spans,
        vec![Span::Font(
            "font-size: 1.5em; font-weight: 700".to_string(),
            vec![Span::Text("Title".to_string())],
        )]
    );
}

#[test]
fn unknown_color_resolves_to_inherit() {
    let spans = parse_rich_text("[color=<script>]x[/color]");
    assert_eq!(
        spans,
        vec![Span::Color("inherit".to_string(), vec![Span::Text("x".to_string())])]
    );
}

#[test]
fn newlines_become_line_breaks() {
    let spans = text_with_newlines("a\nb");
    assert_eq!(
        spans,
        vec![
            Span::Text("a".to_string()),
            Span::LineBreak,
            Span::Text("b".to_string()),
        ]
    );
}

#[test]
fn newline_inside_tag_content_breaks_too() {
    let spans = parse_rich_text("[color=blue]a\nb[/color]");
    assert_eq!(
        spans,
        vec![Span::Color(
            "#0000ff".to_string(),
            vec![
                Span::Text("a".to_string()),
                Span::LineBreak,
                Span::Text("b".to_string()),
            ],
        )]
    );
}

#[test]
fn earliest_tag_wins() {
    assert_eq!(find_next_tag("xx[font=a][color=b]"), Some((2, TagKind::Font)));
    assert_eq!(find_next_tag("[color=b][font=a]"), Some((0, TagKind::Color)));
    assert_eq!(find_next_tag("no tags here"), None);
}

use factorio_browser::style::{factorio_color_to_css, factorio_font_to_css, parse_rgb_color};

#[test]
fn rgb_form_scales_channels() {
    assert_eq!(factorio_color_to_css("r=1,g=0,b=0"), "rgb(255, 0, 0)");
}

#[test]
fn unknown_color_is_inherit() {
    assert_eq!(factorio_color_to_css("not-a-color"), "inherit");
}

#[test]
fn named_colors_match_case_insensitively() {
    assert_eq!(factorio_color_to_css("red"), "#ff0000");
    assert_eq!(factorio_color_to_css("RED"), "#ff0000");
    assert_eq!(factorio_color_to_css("Acid"), "#b0ff00");
    assert_eq!(factorio_color_to_css("magenta"), "#ff00ff");
    assert_eq!(factorio_color_to_css("grey"), "#808080");
    assert_eq!(factorio_color_to_css("default"), "inherit");
}

#[test]
fn hex_colors_accepted_with_or_without_hash() {
    assert_eq!(factorio_color_to_css("#AbCdEf"), "#AbCdEf");
    assert_eq!(factorio_color_to_css("abc123"), "#abc123");
    assert_eq!(factorio_color_to_css("#12345"), "inherit");
    assert_eq!(factorio_color_to_css("#1234567"), "inherit");
    assert_eq!(factorio_color_to_css("#12345g"), "inherit");
}

#[test]
fn rgb_channels_default_to_full() {
    assert_eq!(parse_rgb_color("g=0.5"), "rgb(255, 127, 255)");
    assert_eq!(parse_rgb_color("1,0.5,0"), "rgb(255, 255, 255)");
}

#[test]
fn rgb_channels_clamp() {
    assert_eq!(parse_rgb_color("r=2,g=-1,b=0.25"), "rgb(255, 0, 63)");
}

#[test]
fn rgb_last_component_wins() {
    assert_eq!(parse_rgb_color("r=0,r=1"), "rgb(255, 255, 255)");
}

#[test]
fn rgb_unparsable_component_defaults() {
    assert_eq!(parse_rgb_color("r=zebra,g=0,b=0"), "rgb(255, 0, 0)");
}

#[test]
fn rgb_components_may_carry_spaces() {
    assert_eq!(parse_rgb_color("r=0, g=0.5, b=1"), "rgb(0, 127, 255)");
}

#[test]
fn fonts_resolve_through_the_table() {
    assert_eq!(factorio_font_to_css("default"), "");
    assert_eq!(factorio_font_to_css("default-bold"), "font-weight: 700");
    assert_eq!(factorio_font_to_css("DEFAULT-SEMIBOLD"), "font-weight: 600");
    assert_eq!(factorio_font_to_css("default-small"), "font-size: 0.85em");
    assert_eq!(
        factorio_font_to_css("default-small-bold"),
        "font-size: 0.85em; font-weight: 700"
    );
    assert_eq!(
        factorio_font_to_css("default-large-semibold"),
        "font-size: 1.2em; font-weight: 600"
    );
    assert_eq!(factorio_font_to_css("heading-2"), "font-size: 1.25em; font-weight: 700");
}

#[test]
fn unknown_font_resolves_to_no_style() {
    assert_eq!(factorio_font_to_css("comic-sans"), "");
}

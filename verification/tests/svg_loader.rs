use miniko_renderer::svg_loader::{recolor_svg, replacement_for, ColorVariants};

fn variants() -> ColorVariants {
    ColorVariants {
        base: "#112233".to_string(),
        shadow: "#445566".to_string(),
        shadow2: "#778899".to_string(),
    }
}

#[test]
fn attribute_sentinels_are_replaced() {
    let svg = r##"<path fill="red" stroke="lime"/><path fill="blue"/>"##;
    assert_eq!(
        recolor_svg(svg, &variants()).unwrap(),
        r##"<path fill="#112233" stroke="#445566"/><path fill="#778899"/>"##
    );
}

#[test]
fn css_sentinels_are_replaced() {
    let svg = r##"<path style="fill: red; stroke:BLUE;"/><g style="fill:Lime"/>"##;
    assert_eq!(
        recolor_svg(svg, &variants()).unwrap(),
        r##"<path style="fill: #112233; stroke:#778899;"/><g style="fill:#445566"/>"##
    );
}

#[test]
fn other_colours_and_names_are_kept() {
    let svg = r##"<path fill="#000" stroke="black"/><path fill="reddish"/><path data-fill="red"/>"##;
    let out = recolor_svg(svg, &variants()).unwrap();
    assert_eq!(out, r##"<path fill="#000" stroke="black"/><path fill="reddish"/><path data-fill="#112233"/>"##);
}

#[test]
fn text_without_sentinels_is_unchanged() {
    let svg = "<svg><rect width=\"10\"/></svg>";
    assert_eq!(recolor_svg(svg, &variants()).unwrap(), svg);
}

#[test]
fn replacement_keeps_both_groups() {
    assert_eq!(replacement_for("#abcdef"), "${1}#abcdef${2}");
}

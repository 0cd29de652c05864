//! Sentinel recoloring of SVG text.
//!
//! Recolorable SVGs are drawn with three sentinel colors: `red` stands for
//! the base color, `lime` for the shadow and `blue` for the deeper shadow.
//! Black outlines are left as they are. Each sentinel is replaced wherever it
//! is the value of a `fill` or `stroke` property, in CSS form (`fill: red;`)
//! and in attribute form (`fill="red"`), matched case-insensitively.

use vstd::prelude::*;
use vstd::string::*;

verus! {

/// The three colors that replace the sentinels, as CSS color text.
pub struct ColorVariants {
    pub base: String,
    pub shadow: String,
    pub shadow2: String,
}

/// What `regex` gives for replacing every match of `pattern` in `text` by
/// `template` (with `${1}`, `${2}` expanded to the capture groups), or `None`
/// where `pattern` does not compile.
pub uninterp spec fn regex_replace_all(pattern: Seq<char>, text: Seq<char>, template: Seq<char>) -> Option<Seq<char>>;

/// Compiles `pattern` with `regex::Regex::new` and, where it compiles,
/// returns `Regex::replace_all(text, template)` as an owned string; `None`
/// where the pattern is refused. The result is stated only through the name
/// `regex_replace_all`: the matching and expansion rules of the crate are not
/// restated here.
#[verifier::external_body]
fn replace_all_matches(pattern: &str, text: &str, template: &str) -> (r: Option<String>)
    ensures
        match r {
            Some(s) => regex_replace_all(pattern@, text@, template@) == Some(s@),
            None => regex_replace_all(pattern@, text@, template@) is None,
        },
{
    match regex::Regex::new(pattern) {
        Ok(re) => Some(re.replace_all(text, template).into_owned()),
        Err(_) => None,
    }
}

/// Number of replacement rules.
pub const SENTINEL_RULES: usize = 12;

/// The pattern of rule `i`: six CSS rules (fill and stroke for red, lime,
/// blue), then the six matching attribute rules. Group 1 is the text before
/// the color name and group 2 the text after it.
pub open spec fn sentinel_pattern(i: int) -> Seq<char> {
    if i == 0 {
        "(?i)(\\bfill\\s*:\\s*)red(\\s*[;\"])"@
    } else if i == 1 {
        "(?i)(\\bstroke\\s*:\\s*)red(\\s*[;\"])"@
    } else if i == 2 {
        "(?i)(\\bfill\\s*:\\s*)lime(\\s*[;\"])"@
    } else if i == 3 {
        "(?i)(\\bstroke\\s*:\\s*)lime(\\s*[;\"])"@
    } else if i == 4 {
        "(?i)(\\bfill\\s*:\\s*)blue(\\s*[;\"])"@
    } else if i == 5 {
        "(?i)(\\bstroke\\s*:\\s*)blue(\\s*[;\"])"@
    } else if i == 6 {
        "(?i)(\\bfill=\")red(\")"@
    } else if i == 7 {
        "(?i)(\\bstroke=\")red(\")"@
    } else if i == 8 {
        "(?i)(\\bfill=\")lime(\")"@
    } else if i == 9 {
        "(?i)(\\bstroke=\")lime(\")"@
    } else if i == 10 {
        "(?i)(\\bfill=\")blue(\")"@
    } else {
        "(?i)(\\bstroke=\")blue(\")"@
    }
}

/// The color that rule `i` writes: red becomes the base color, lime the
/// shadow and blue the deeper shadow.
pub open spec fn rule_color(v: ColorVariants, i: int) -> Seq<char> {
    let sentinel = i % 6 / 2;
    if sentinel == 0 {
        v.base@
    } else if sentinel == 1 {
        v.shadow@
    } else {
        v.shadow2@
    }
}

/// A CSS property rule: the property name, a colon with optional spaces
/// (group 1), the sentinel name, then optional spaces and `;` or `"` (group 2),
/// matched case-insensitively as a whole word.
pub open spec fn css_rule(property: Seq<char>, sentinel: Seq<char>) -> Seq<char> {
    "(?i)(\\b"@ + property + "\\s*:\\s*)"@ + sentinel + "(\\s*[;\"])"@
}

/// An attribute rule: the attribute name and `="` (group 1), the sentinel
/// name, then the closing quote (group 2), matched case-insensitively.
pub open spec fn attr_rule(property: Seq<char>, sentinel: Seq<char>) -> Seq<char> {
    "(?i)(\\b"@ + property + "=\")"@ + sentinel + "(\")"@
}

/// The rules recolour every sentinel in both properties and both forms:
/// `red` becomes the base colour, `lime` the shadow and `blue` the deeper
/// shadow, in `fill` and in `stroke`, first as CSS properties, then as
/// attributes.
pub proof fn lemma_sentinel_rules(v: ColorVariants)
    ensures
        sentinel_pattern(0) == css_rule("fill"@, "red"@),
        rule_color(v, 0) == v.base@,
        sentinel_pattern(1) == css_rule("stroke"@, "red"@),
        rule_color(v, 1) == v.base@,
        sentinel_pattern(2) == css_rule("fill"@, "lime"@),
        rule_color(v, 2) == v.shadow@,
        sentinel_pattern(3) == css_rule("stroke"@, "lime"@),
        rule_color(v, 3) == v.shadow@,
        sentinel_pattern(4) == css_rule("fill"@, "blue"@),
        rule_color(v, 4) == v.shadow2@,
        sentinel_pattern(5) == css_rule("stroke"@, "blue"@),
        rule_color(v, 5) == v.shadow2@,
        sentinel_pattern(6) == attr_rule("fill"@, "red"@),
        rule_color(v, 6) == v.base@,
        sentinel_pattern(7) == attr_rule("stroke"@, "red"@),
        rule_color(v, 7) == v.base@,
        sentinel_pattern(8) == attr_rule("fill"@, "lime"@),
        rule_color(v, 8) == v.shadow@,
        sentinel_pattern(9) == attr_rule("stroke"@, "lime"@),
        rule_color(v, 9) == v.shadow@,
        sentinel_pattern(10) == attr_rule("fill"@, "blue"@),
        rule_color(v, 10) == v.shadow2@,
        sentinel_pattern(11) == attr_rule("stroke"@, "blue"@),
        rule_color(v, 11) == v.shadow2@,
{
    reveal_strlit("fill");
    reveal_strlit("stroke");
    reveal_strlit("red");
    reveal_strlit("lime");
    reveal_strlit("blue");
    reveal_strlit("(?i)(\\b");
    reveal_strlit("\\s*:\\s*)");
    reveal_strlit("(\\s*[;\"])");
    reveal_strlit("=\")");
    reveal_strlit("(\")");
    reveal_strlit("(?i)(\\bfill\\s*:\\s*)red(\\s*[;\"])");
    reveal_strlit("(?i)(\\bstroke\\s*:\\s*)red(\\s*[;\"])");
    reveal_strlit("(?i)(\\bfill\\s*:\\s*)lime(\\s*[;\"])");
    reveal_strlit("(?i)(\\bstroke\\s*:\\s*)lime(\\s*[;\"])");
    reveal_strlit("(?i)(\\bfill\\s*:\\s*)blue(\\s*[;\"])");
    reveal_strlit("(?i)(\\bstroke\\s*:\\s*)blue(\\s*[;\"])");
    reveal_strlit("(?i)(\\bfill=\")red(\")");
    reveal_strlit("(?i)(\\bstroke=\")red(\")");
    reveal_strlit("(?i)(\\bfill=\")lime(\")");
    reveal_strlit("(?i)(\\bstroke=\")lime(\")");
    reveal_strlit("(?i)(\\bfill=\")blue(\")");
    reveal_strlit("(?i)(\\bstroke=\")blue(\")");
    assert(sentinel_pattern(0) =~= css_rule("fill"@, "red"@));
    assert(sentinel_pattern(1) =~= css_rule("stroke"@, "red"@));
    assert(sentinel_pattern(2) =~= css_rule("fill"@, "lime"@));
    assert(sentinel_pattern(3) =~= css_rule("stroke"@, "lime"@));
    assert(sentinel_pattern(4) =~= css_rule("fill"@, "blue"@));
    assert(sentinel_pattern(5) =~= css_rule("stroke"@, "blue"@));
    assert(sentinel_pattern(6) =~= attr_rule("fill"@, "red"@));
    assert(sentinel_pattern(7) =~= attr_rule("stroke"@, "red"@));
    assert(sentinel_pattern(8) =~= attr_rule("fill"@, "lime"@));
    assert(sentinel_pattern(9) =~= attr_rule("stroke"@, "lime"@));
    assert(sentinel_pattern(10) =~= attr_rule("fill"@, "blue"@));
    assert(sentinel_pattern(11) =~= attr_rule("stroke"@, "blue"@));
}

/// The replacement text: both capture groups kept around the new color.
pub open spec fn replacement_template(color: Seq<char>) -> Seq<char> {
    "${1}"@ + color + "${2}"@
}

/// The text after applying rules `i..12` in order, or `None` where a pattern
/// does not compile.
pub open spec fn recolor_from(text: Seq<char>, v: ColorVariants, i: nat) -> Option<Seq<char>>
    decreases 12 - i,
{
    if i >= 12 {
        Some(text)
    } else {
        match regex_replace_all(
            sentinel_pattern(i as int),
            text,
            replacement_template(rule_color(v, i as int)),
        ) {
            Some(t) => recolor_from(t, v, i + 1),
            None => None,
        }
    }
}

fn sentinel_pattern_str(i: usize) -> (r: &'static str)
    requires
        i < 12,
    ensures
        r@ == sentinel_pattern(i as int),
{
    if i == 0 {
        "(?i)(\\bfill\\s*:\\s*)red(\\s*[;\"])"
    } else if i == 1 {
        "(?i)(\\bstroke\\s*:\\s*)red(\\s*[;\"])"
    } else if i == 2 {
        "(?i)(\\bfill\\s*:\\s*)lime(\\s*[;\"])"
    } else if i == 3 {
        "(?i)(\\bstroke\\s*:\\s*)lime(\\s*[;\"])"
    } else if i == 4 {
        "(?i)(\\bfill\\s*:\\s*)blue(\\s*[;\"])"
    } else if i == 5 {
        "(?i)(\\bstroke\\s*:\\s*)blue(\\s*[;\"])"
    } else if i == 6 {
        "(?i)(\\bfill=\")red(\")"
    } else if i == 7 {
        "(?i)(\\bstroke=\")red(\")"
    } else if i == 8 {
        "(?i)(\\bfill=\")lime(\")"
    } else if i == 9 {
        "(?i)(\\bstroke=\")lime(\")"
    } else if i == 10 {
        "(?i)(\\bfill=\")blue(\")"
    } else {
        "(?i)(\\bstroke=\")blue(\")"
    }
}

fn rule_color_str(colors: &ColorVariants, i: usize) -> (r: &str)
    ensures
        r@ == rule_color(*colors, i as int),
{
    let sentinel = i % 6 / 2;
    if sentinel == 0 {
        colors.base.as_str()
    } else if sentinel == 1 {
        colors.shadow.as_str()
    } else {
        colors.shadow2.as_str()
    }
}

/// The replacement text for one color: `${1}`, the color, `${2}`.
pub fn replacement_for(color: &str) -> (r: String)
    ensures
        r@ == replacement_template(color@),
{
    let mut t = String::new();
    t.append("${1}");
    t.append(color);
    t.append("${2}");
    t
}

/// Replace the sentinel colors in SVG text with the chosen colors, applying
/// the twelve rules in order, each to the result of the one before.
pub fn recolor_svg(svg_text: &str, colors: &ColorVariants) -> (r: Option<String>)
    ensures
        match r {
            Some(s) => recolor_from(svg_text@, *colors, 0) == Some(s@),
            None => recolor_from(svg_text@, *colors, 0) is None,
        },
{
    let mut result = svg_text.to_owned();
    let mut i: usize = 0;
    while i < SENTINEL_RULES
        invariant
            i <= 12,
            recolor_from(svg_text@, *colors, 0) == recolor_from(result@, *colors, i as nat),
        decreases 12 - i,
    {
        let pattern = sentinel_pattern_str(i);
        let template = replacement_for(rule_color_str(colors, i));
        match replace_all_matches(pattern, result.as_str(), template.as_str()) {
            Some(t) => {
                result = t;
            },
            None => {
                return None;
            },
        }
        i = i + 1;
    }
    Some(result)
}

} // verus!

use sherlock::pango::{
    classify_tag, get_attribute, parse_color, parse_pango, strip_pango, PangoTheme, TagKind,
    TextRun,
};

fn dummy_theme() -> PangoTheme {
    PangoTheme {
        font_family: String::from("Inter"),
        primary_text: 0xCDD6F4FF,
        secondary_text: 0xA6ADC8FF,
    }
}

fn parse(s: &str) -> (String, Vec<TextRun>) {
    parse_pango(s, &dummy_theme())
}

#[test]
fn plain_text_produces_one_run() {
    let (text, runs) = parse("hello world");
    assert_eq!(text, "hello world");
    assert_eq!(runs.len(), 1);
    assert_eq!(runs[0].len, 11);
    assert!(!runs[0].bold);
}

#[test]
fn bold_tag_sets_weight() {
    let (text, runs) = parse("<b>bold</b>");
    assert_eq!(text, "bold");
    assert_eq!(runs.len(), 1);
    assert!(runs[0].bold);
}

#[test]
fn italic_tag_sets_style() {
    let (text, runs) = parse("<i>slanted</i>");
    assert_eq!(text, "slanted");
    assert!(runs[0].italic);
}

#[test]
fn mixed_bold_and_italic() {
    let (text, runs) = parse("<b><i>both</i></b>");
    assert_eq!(text, "both");
    assert!(runs[0].bold);
    assert!(runs[0].italic);
}

#[test]
fn bold_wrapping_plain_text() {
    let (text, runs) = parse("before <b>bold</b> after");
    assert_eq!(text, "before bold after");
    assert_eq!(runs.len(), 3);
    assert!(!runs[0].bold);
    assert!(runs[1].bold);
    assert!(!runs[2].bold);
    assert_eq!(runs[0].len, 7);
    assert_eq!(runs[1].len, 4);
    assert_eq!(runs[2].len, 6);
}

#[test]
fn br_tag_inserts_newline() {
    let (text, runs) = parse("line1<br/>line2");
    assert_eq!(text, "line1\n\nline2");
    let total_run_len: usize = runs.iter().map(|r| r.len).sum();
    assert_eq!(total_run_len, text.len());
    assert_eq!(runs.len(), 1);
}

#[test]
fn br_without_slash_also_works() {
    let (text, _) = parse("a<br>b");
    assert_eq!(text, "a\n\nb");
}

#[test]
fn html_entities_unescaped() {
    let (text, _) = parse("a &amp; b &lt;c&gt; &quot;d&quot;");
    assert_eq!(text, "a & b <c> \"d\"");
}

#[test]
fn nbsp_entity() {
    let (text, _) = parse("a&nbsp;b");
    assert_eq!(text, "a b");
}

#[test]
fn tests_empty_string() {
    let (text, runs) = parse("");
    assert_eq!(text, "");
    assert!(runs.is_empty());
}

#[test]
fn unclosed_tag_treated_as_text() {
    let (text, _) = parse("hello <b world");
    assert!(text.contains("hello"));
}

#[test]
fn unknown_tag_emitted_as_literal() {
    let (text, _) = parse("hello <stan>world</stan>");
    assert!(text.contains("<stan>"));
    assert!(text.contains("world"));
    assert!(text.contains("</stan>"));
}

#[test]
fn nested_bold() {
    let (text, runs) = parse("<b>a<b>b</b>c</b>");
    assert_eq!(text, "abc");
    assert_eq!(runs.len(), 1);
    assert!(runs[0].bold);
}

#[test]
fn adjacent_same_style_runs_are_merged() {
    let (text, runs) = parse("hello <!-- comment --> world");
    let total_len: usize = runs.iter().map(|r| r.len).sum();
    assert_eq!(total_len, text.len());
}

#[test]
fn run_lengths_sum_to_text_length() {
    let cases = [
        "plain",
        "<b>bold</b> normal <i>italic</i>",
        "a &amp; <b>b &lt; <i>c</i></b> d",
        "<br/><br/>",
        "",
    ];
    let theme = dummy_theme();
    for case in &cases {
        let (text, runs) = parse_pango(case, &theme);
        let total: usize = runs.iter().map(|r| r.len).sum();
        assert_eq!(
            total,
            text.len(),
            "run lengths don't sum to text length for: {case:?}"
        );
    }
}

#[test]
fn span_applies_font_family() {
    let (text, runs) = parse("normal <span font_desc='Courier'>monospace</span> normal");
    assert_eq!(text, "normal monospace normal");
    assert_eq!(runs.len(), 3);
    assert_eq!(runs[1].family.as_str(), "Courier");
}

#[test]
fn nested_spans_restore_family() {
    let (_text, runs) =
        parse("<span font_desc='A'>outer <span font_desc='B'>inner</span> outer</span>");
    assert_eq!(runs.len(), 3);
    assert_eq!(runs[0].family.as_str(), "A");
    assert_eq!(runs[1].family.as_str(), "B");
    assert_eq!(runs[2].family.as_str(), "A");
}

#[test]
fn strip_pango_comprehensive() {
    let cases = [
        ("hello world", "hello world"),
        ("<b>bold</b>", "bold"),
        ("<i>italic</i>", "italic"),
        ("a<br/>b", "a\n\nb"),
        ("a<br>b", "a\n\nb"),
        ("a<br />b", "a\n\nb"),
        ("&amp;", "&"),
        ("&lt;", "<"),
        ("&gt;", ">"),
        ("&quot;", "\""),
        ("&apos;", "'"),
        ("&nbsp;", " "),
        ("<b>a &amp; b</b>", "a & b"),
        ("<span font_desc='monospace'>code</span>", "code"),
        ("<b><i>both</i></b>", "both"),
        ("", ""),
        ("just plain text", "just plain text"),
        (
            "<b>Name</b>: foo &amp; bar<br/>second line",
            "Name: foo & bar\n\nsecond line",
        ),
    ];

    for (input, expected) in &cases {
        assert_eq!(strip_pango(input), *expected, "failed for: {input:?}");
    }
}

#[test]
fn plain_runs_take_the_theme_family_and_color() {
    let theme = dummy_theme();
    let (_, runs) = parse_pango("plain", &theme);
    assert_eq!(runs[0].family.as_str(), "Inter");
    assert_eq!(runs[0].color, theme.secondary_text);
    let (_, runs) = parse_pango("<b>bold</b>", &theme);
    assert_eq!(runs[0].color, theme.primary_text);
}

#[test]
fn span_foreground_sets_color() {
    let (text, runs) = parse("<span color='#ff0000'>red</span>");
    assert_eq!(text, "red");
    assert_eq!(runs.len(), 1);
    assert_eq!(runs[0].color, 0xFF0000FF);
}

#[test]
fn classify_tag_kinds() {
    assert_eq!(classify_tag("b"), TagKind::BoldOpen);
    assert_eq!(classify_tag("/B"), TagKind::BoldClose);
    assert_eq!(classify_tag("i"), TagKind::ItalicOpen);
    assert_eq!(classify_tag("/i"), TagKind::ItalicClose);
    assert_eq!(classify_tag("br /"), TagKind::Br);
    assert_eq!(classify_tag("span font_desc='A'"), TagKind::SpanOpen);
    assert_eq!(classify_tag("/span"), TagKind::SpanClose);
    assert_eq!(classify_tag("stan"), TagKind::Unknown);
}

#[test]
fn attribute_lookup() {
    assert_eq!(
        get_attribute("span font_desc='Courier' color=\"red\"", "font_desc").as_deref(),
        Some("Courier")
    );
    assert_eq!(
        get_attribute("span font_desc='Courier' color=\"red\"", "color").as_deref(),
        Some("red")
    );
    assert_eq!(get_attribute("span font_desc='Courier'", "weight"), None);
}

#[test]
fn color_parsing() {
    assert_eq!(parse_color("#ff8000"), Some(0xFF8000FF));
    assert_eq!(parse_color("#zzzzzz"), None);
}

#[test]
fn strip_matches_rendered_text_for_known_tags() {
    let theme = dummy_theme();
    for input in [
        "<b>Name</b>: foo &amp; bar<br/>second line",
        "<span font_desc='A' color='#112233'>x <i>y</i></span> z",
        "unclosed <b",
        "",
    ] {
        assert_eq!(strip_pango(input), parse_pango(input, &theme).0, "for {input:?}");
    }
    // an unknown tag is kept by the renderer and dropped by the stripper
    assert_eq!(strip_pango("a<x>b"), "ab");
    assert_eq!(parse_pango("a<x>b", &theme).0, "a<x>b");
}

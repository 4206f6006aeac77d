use sherlock::choice::{Choice, ChoiceOption};
use sherlock::pango::{CachedPango, PangoTheme};

fn option(v: &str) -> ChoiceOption {
    ChoiceOption { value: v.to_string(), label: CachedPango::new(format!("<b>{v}</b>")) }
}

fn choice(n: usize) -> Choice {
    Choice::builder()
        .scope("ChoiceInput")
        .options((0..n).map(|i| option(&i.to_string())).collect())
        .build()
}

#[test]
fn builder_defaults() {
    let c = Choice::builder().build();
    assert!(c.scope.is_none());
    assert!(c.options.is_empty());
    assert!(c.selected.is_none());
    assert!(!c.is_opened);
    assert_eq!(c.placeholder.source().as_str(), "");
}

#[test]
fn next_and_prev_saturate() {
    let mut c = choice(3);
    assert_eq!(c.scope, Some("ChoiceInput"));
    c.saturating_next();
    assert_eq!(c.selected, Some(0));
    c.saturating_next();
    c.saturating_next();
    c.saturating_next();
    assert_eq!(c.selected, Some(2));
    c.saturating_prev();
    assert_eq!(c.selected, Some(1));
    c.saturating_prev();
    c.saturating_prev();
    assert_eq!(c.selected, None);
}

#[test]
fn no_options_means_no_selection() {
    let mut c = choice(0);
    c.saturating_next();
    assert_eq!(c.selected, None);
}

#[test]
fn placeholder_renders_once_populated() {
    let theme = PangoTheme { font_family: "Inter".into(), primary_text: 1, secondary_text: 2 };
    let p = CachedPango::new("<i>pick one</i>".to_string()).prepared(&theme);
    assert_eq!(p.0.text.as_str(), "pick one");
    assert_eq!(p.0.runs().len(), 1);
    assert!(p.0.runs()[0].italic);
}

#[test]
fn shown_label_follows_selection() {
    let mut c = Choice::builder()
        .placeholder(CachedPango::new("pick".to_string()))
        .options(vec![option("x"), option("y")])
        .build();
    assert_eq!(c.shown_label().source().as_str(), "pick");
    assert_eq!(c.chevron(), "\u{25be}");
    c.saturating_next();
    c.saturating_next();
    assert_eq!(c.shown_label().source().as_str(), "<b>y</b>");
    assert_eq!(c.chevron(), "\u{25b4}");
    c.selected = Some(7);
    assert_eq!(c.shown_label().source().as_str(), "pick");
}

#[test]
fn populate_labels_renders_everything() {
    let theme = PangoTheme { font_family: "Inter".into(), primary_text: 1, secondary_text: 2 };
    let mut c = Choice::builder()
        .placeholder(CachedPango::new("<i>pick</i>".to_string()))
        .options(vec![option("x"), option("y")])
        .build();
    c.populate_labels(&theme);
    assert_eq!(c.placeholder.text.as_str(), "pick");
    assert_eq!(c.options[0].label.text.as_str(), "x");
    assert_eq!(c.options[1].label.text.as_str(), "y");
    assert_eq!(c.options[1].value.as_str(), "y");
}

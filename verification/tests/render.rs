use sherlock::render::substitute;

#[test]
fn replaces_single_occurrence() {
    let result = substitute("nordvpn -c {location}".into(), "location", "Germany");
    assert_eq!(result.as_str(), "nordvpn -c Germany");
}

#[test]
fn replaces_multiple_occurrences() {
    let result = substitute("echo {x} and {x}".into(), "x", "hello");
    assert_eq!(result.as_str(), "echo hello and hello");
}

#[test]
fn no_match_returns_original() {
    let original: String = "nordvpn -c {location}".into();
    let result = substitute(original.clone(), "country", "Germany");
    assert_eq!(result, original);
}

#[test]
fn partial_match_no_closing_brace() {
    let original: String = "nordvpn -c {location".into();
    let result = substitute(original.clone(), "location", "Germany");
    assert_eq!(result, original);
}

#[test]
fn partial_match_wrong_name() {
    let original: String = "nordvpn -c {locations}".into();
    let result = substitute(original.clone(), "location", "Germany");
    assert_eq!(result, original);
}

#[test]
fn empty_value() {
    let result = substitute("nordvpn -c {location}".into(), "location", "");
    assert_eq!(result.as_str(), "nordvpn -c ");
}

#[test]
fn render_empty_string() {
    let original: String = "".into();
    let result = substitute(original.clone(), "location", "Germany");
    assert_eq!(result, original);
}

#[test]
fn replacement_is_not_rescanned() {
    let result = substitute("{a}{a}".into(), "a", "{a}");
    assert_eq!(result.as_str(), "{a}{a}");
}

#[test]
fn non_ascii_template_and_value() {
    let result = substitute("grüße {wer}!".into(), "wer", "Jürgen");
    assert_eq!(result.as_str(), "grüße Jürgen!");
}

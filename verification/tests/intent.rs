use sherlock::intent::{
    IntentResult, is_connector, is_noise, tokenize, tokenize_kill_noise, Cursor, Intent, Language,
    TranslationParser,
};

#[test]
fn test_translation_parsing() {
    let cases = vec![
        ("something to german", "something", Language::German),
        ("what is something to german", "what is something", Language::German),
        ("translate hello to spanish", "translate hello", Language::Spanish),
    ];

    for (input, expected_text, expected_lang) in cases {
        let result = TranslationParser::parse_intent(input);

        match result {
            Some(Intent::Translation { text, target_lang }) => {
                assert_eq!(text, expected_text, "Failed text extraction on: '{}'", input);
                assert_eq!(target_lang, expected_lang, "Failed language detection on: '{}'", input);
            }
            _ => panic!("Expected Translation intent, but got None for input: '{}'", input),
        }
    }
}

#[test]
fn test_translation_parsing_failures() {
    let failures = vec!["something", "to german", "something to", ""];

    for input in failures {
        let result = TranslationParser::parse_intent(input);
        assert!(result.is_none(), "Expected None for input: '{}', but got {:?}", input, result);
    }
}

#[test]
fn translation_uses_the_last_connector() {
    match TranslationParser::parse_intent("go to bed in french") {
        Some(Intent::Translation { text, target_lang }) => {
            assert_eq!(text, "go to bed");
            assert_eq!(target_lang, Language::French);
        }
        None => panic!("expected a translation"),
    }
    match TranslationParser::parse_intent("  Hallo Welt   to   ENGLISH ") {
        Some(Intent::Translation { text, target_lang }) => {
            assert_eq!(text, "Hallo Welt");
            assert_eq!(target_lang, Language::English);
        }
        None => panic!("expected a translation"),
    }
    assert!(TranslationParser::parse_intent("hello to klingon").is_none());
}

#[test]
fn language_names() {
    assert_eq!(Language::from_str("German"), Some(Language::German));
    assert_eq!(Language::from_str("KOREAN"), Some(Language::Korean));
    assert_eq!(Language::from_str("germanic"), None);
}

#[test]
fn tokenize_splits_numbers_from_units() {
    let t = tokenize("set a timer for 5min");
    assert_eq!(t, vec!["set", "a", "timer", "for", "5", "min"]);
    let t = tokenize("3.5kg (to) lbs,%");
    assert_eq!(t, vec!["3.5", "kg", "to", "lbs"]);
    let t = tokenize("#ff00aa 10%");
    assert_eq!(t, vec!["#ff00aa", "10"]);
    let t = tokenize("abc1def2");
    assert_eq!(t, vec!["abc", "1def2"]);
    assert!(tokenize("").is_empty());
    assert!(tokenize("  ,( ) ").is_empty());
}

#[test]
fn noise_and_connectors() {
    assert!(is_noise("How"));
    assert!(is_noise("THE"));
    assert!(!is_noise("timer"));
    assert!(is_connector("to"));
    assert!(is_connector("Into"));
    assert!(is_connector("=>"));
    assert!(!is_connector("onto"));
}

#[test]
fn kill_noise_keeps_meaningful_tokens() {
    let t = tokenize_kill_noise("how much is 100kg in lbs");
    assert_eq!(t, vec!["100", "kg", "in", "lbs"]);
}

#[test]
fn cursor_walks_tokens() {
    let tokens = ["a", "b", "c"];
    let mut c = Cursor::new(&tokens);
    assert_eq!(c.peek(), Some("a"));
    assert_eq!(c.peek2(), Some("b"));
    let snap = c.save();
    assert_eq!(c.advance(), Some("a"));
    assert_eq!(c.remaining(), &["b", "c"]);
    assert_eq!(c.advance(), Some("b"));
    assert_eq!(c.advance(), Some("c"));
    assert!(c.is_empty());
    assert_eq!(c.advance(), None);
    assert_eq!(c.peek(), None);
    c.restore(snap);
    assert_eq!(c.peek(), Some("a"));
    assert!(!c.is_empty());
}

#[test]
fn result_text_formats_colors() {
    assert_eq!(IntentResult::Color(0xff).to_text(), "#0000ff");
    assert_eq!(IntentResult::Color(0xABCDEF).to_text(), "#abcdef");
    assert_eq!(IntentResult::Color(0x1234_5678).to_text(), "#12345678");
    assert_eq!(IntentResult::Color(0).to_text(), "#000000");
    assert_eq!(IntentResult::String("42 kg".into()).to_text(), "42 kg");
}

#[test]
fn tokens_join_to_input_without_separators() {
    let input = "convert (3.5kg), to lbs%";
    let joined: String = tokenize(input).concat();
    let expected: String = input.chars().filter(|c| !" ()%,".contains(*c)).collect();
    assert_eq!(joined, expected);
    assert!(tokenize(input).iter().all(|t| !t.is_empty()));
}

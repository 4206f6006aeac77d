use sherlock::format::{make_ascii_title_case, make_title_case, TitleCaseError};

#[test]
fn ascii_title_case_example() {
    let mut s = String::from("catppuccin-mocha");
    make_ascii_title_case(&mut s).unwrap();
    assert_eq!(s, "Catppuccin Mocha");
}

#[test]
fn ascii_title_case_lowers_the_rest() {
    let mut s = String::from("gRUVBOX_dark  hard");
    make_ascii_title_case(&mut s).unwrap();
    assert_eq!(s, "Gruvbox Dark  Hard");
}

#[test]
fn ascii_title_case_refuses_non_ascii() {
    let mut s = String::from("über-theme");
    assert_eq!(make_ascii_title_case(&mut s), Err(TitleCaseError::NotAscii));
    assert_eq!(s, "über-theme");
}

#[test]
fn title_case_examples() {
    let mut s = String::from("catppuccin-mocha");
    make_title_case(&mut s);
    assert_eq!(s, "Catppuccin Mocha");

    let mut s = String::from("über-theme");
    make_title_case(&mut s);
    assert_eq!(s, "Über Theme");
}

#[test]
fn title_case_expands_sharp_s() {
    let mut s = String::from("ßtraße_ä");
    make_title_case(&mut s);
    assert_eq!(s, "SStraße Ä");
}

#[test]
fn title_case_of_empty() {
    let mut s = String::new();
    make_title_case(&mut s);
    assert_eq!(s, "");
}

#[test]
fn title_case_mixes_ascii_and_unicode_first_letters() {
    let mut s = String::from("élan-vital_ß x");
    make_title_case(&mut s);
    assert_eq!(s, "Élan Vital SS X");
}

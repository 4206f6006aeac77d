use sherlock::text::trim_str;
use sherlock::url::is_url;

#[test]
fn test_url_detector() {
    assert!(is_url("google.com"));
    assert!(is_url("www.google.com"));
    assert!(is_url("sub.domain.co.uk"));
    assert!(!is_url("hello"));
    assert!(!is_url("rust regex"));
    assert!(!is_url("a b.com"));

    assert!(is_url("http://x"));
    assert!(is_url("https://example.com"));
    assert!(is_url("https://example.com/path?query=1#fragment"));
    assert!(is_url("ftp://files.example.com"));
    assert!(is_url("ssh://user@host.com"));
    assert!(!is_url("http:"));
    assert!(!is_url("://example.com"));
    assert!(!is_url("123://example.com"));

    assert!(is_url("8.8.8.8"));
    assert!(is_url("192.168.1.1"));
    assert!(is_url("192.168.1.1:8080"));
    assert!(!is_url("999.999.999.999"));
    assert!(!is_url("1.2.3"));
    assert!(!is_url("1.2.3.4.5"));

    assert!(is_url("localhost"));
    assert!(is_url("localhost:3000"));
    assert!(is_url("LOCALHOST"));

    assert!(is_url("example.com:8080"));
    assert!(!is_url("example.com:99999"));
    assert!(!is_url("example.com:abc"));

    assert!(!is_url("<script>"));
    assert!(!is_url("\"hello.com\""));
    assert!(!is_url("'example.com'"));

    assert!(!is_url(""));
    assert!(!is_url("   "));
    assert!(!is_url(".com"));
    assert!(!is_url("example."));
    assert!(!is_url("-example.com"));
    assert!(!is_url("example-.com"));
}

#[test]
fn surrounding_white_space_is_ignored() {
    assert!(is_url("  example.com  "));
    assert!(is_url("\thttps://example.com\n"));
}

#[test]
fn port_edges() {
    assert!(is_url("example.com:65535"));
    assert!(!is_url("example.com:65536"));
    assert!(!is_url("example.com:"));
}

#[test]
fn host_names_up_to_255_bytes() {
    let label = "a".repeat(63);
    let name255 = format!("{label}.{label}.{label}.{label}");
    assert_eq!(name255.len(), 255);
    assert!(is_url(&name255));
    let name257 = format!("b.{name255}");
    assert!(!is_url(&name257));
}

#[test]
fn trim_removes_unicode_white_space() {
    assert_eq!(trim_str("\u{3000} a b\t\n"), "a b");
    assert_eq!(trim_str("   "), "");
    assert_eq!(trim_str("x"), "x");
}

//! Heuristic detection of URLs, host names and IPv4 addresses typed into
//! the search bar.

use vstd::prelude::*;
use crate::text::{trim_spec, trim_str};

verus! {

/// Inputs longer than this many bytes are never URLs.
pub const MAX_URL_LEN: usize = 2048;

pub open spec fn is_digit(b: u8) -> bool {
    0x30 <= b && b <= 0x39
}

pub open spec fn is_alpha(b: u8) -> bool {
    (0x41 <= b && b <= 0x5A) || (0x61 <= b && b <= 0x7A)
}

pub open spec fn is_alnum(b: u8) -> bool {
    is_digit(b) || is_alpha(b)
}

/// Bytes that never occur in a URL typed by a user: `< > " ' \` and space.
pub open spec fn is_rejected_byte(b: u8) -> bool {
    b == 0x3C || b == 0x3E || b == 0x22 || b == 0x27 || b == 0x5C || b == 0x20
}

/// The parts of `s` between the occurrences of `sep` (always at least one part).
pub open spec fn split_on(s: Seq<u8>, sep: u8) -> Seq<Seq<u8>>
    decreases s.len(),
{
    if s.len() == 0 {
        seq![Seq::empty()]
    } else {
        let p = split_on(s.drop_last(), sep);
        if s.last() == sep {
            p.push(Seq::empty())
        } else {
            p.update(p.len() - 1, p.last().push(s.last()))
        }
    }
}

/// The value of a string of decimal digits.
pub open spec fn decimal_value(s: Seq<u8>) -> nat
    decreases s.len(),
{
    if s.len() == 0 {
        0
    } else {
        decimal_value(s.drop_last()) * 10 + (s.last() - 0x30) as nat
    }
}

pub open spec fn all_digits(s: Seq<u8>) -> bool {
    forall|i: int| 0 <= i < s.len() ==> is_digit(#[trigger] s[i])
}

pub open spec fn contains_byte(s: Seq<u8>, b: u8) -> bool {
    exists|i: int| 0 <= i < s.len() && s[i] == b
}

/// Index of the first `b` in `s`.
pub open spec fn first_index(s: Seq<u8>, b: u8) -> int
    decreases s.len(),
{
    if s.len() == 0 || s[0] == b {
        0
    } else {
        1 + first_index(s.drop_first(), b)
    }
}

pub open spec fn has_rejected_spec(s: Seq<u8>) -> bool {
    exists|i: int| 0 <= i < s.len() && is_rejected_byte(s[i])
}

/// A scheme is a non-empty run of ASCII letters.
pub open spec fn valid_scheme_spec(s: Seq<u8>) -> bool {
    s.len() > 0 && forall|i: int| 0 <= i < s.len() ==> is_alpha(#[trigger] s[i])
}

/// A port is one to five decimal digits whose value is at most 65535.
pub open spec fn valid_port_spec(s: Seq<u8>) -> bool {
    1 <= s.len() <= 5 && all_digits(s) && decimal_value(s) <= 65535
}

/// One host-name label: 1 to 63 letters, digits or hyphens, not starting
/// or ending with a hyphen.
pub open spec fn valid_label(l: Seq<u8>) -> bool {
    &&& 1 <= l.len() <= 63
    &&& forall|i: int| 0 <= i < l.len() ==> (is_alnum(#[trigger] l[i]) || l[i] == 0x2D)
    &&& l[0] != 0x2D
    &&& l.last() != 0x2D
}

/// RFC 952 / RFC 1123 host name of at most 255 bytes.
pub open spec fn valid_hostname_spec(s: Seq<u8>) -> bool {
    &&& 1 <= s.len() <= 255
    &&& forall|i: int| 0 <= i < split_on(s, 0x2E).len() ==> valid_label(#[trigger] split_on(s, 0x2E)[i])
}

/// One octet of a dotted quad: one to three digits with value at most 255.
pub open spec fn valid_octet(g: Seq<u8>) -> bool {
    1 <= g.len() <= 3 && all_digits(g) && decimal_value(g) <= 255
}

/// Four dot-separated octets.
pub open spec fn dotted_quad_spec(s: Seq<u8>) -> bool {
    &&& split_on(s, 0x2E).len() == 4
    &&& forall|i: int| 0 <= i < 4 ==> valid_octet(#[trigger] split_on(s, 0x2E)[i])
}

/// A dotted quad, optionally followed by `:` and a valid port.
pub open spec fn ipv4_spec(s: Seq<u8>) -> bool {
    if contains_byte(s, 0x3A) {
        let c = first_index(s, 0x3A);
        valid_port_spec(s.subrange(c + 1, s.len() as int)) && dotted_quad_spec(s.subrange(0, c))
    } else {
        dotted_quad_spec(s)
    }
}

/// The bytes of `localhost`.
pub open spec fn localhost_bytes() -> Seq<u8> {
    seq![0x6Cu8, 0x6F, 0x63, 0x61, 0x6C, 0x68, 0x6F, 0x73, 0x74]
}

pub open spec fn is_localhost(s: Seq<u8>) -> bool {
    s.len() == 9 && forall|i: int| 0 <= i < 9 ==> ascii_lower(#[trigger] s[i]) == localhost_bytes()[i]
}

pub open spec fn ascii_lower(b: u8) -> u8 {
    if 0x41 <= b && b <= 0x5A {
        (b + 32) as u8
    } else {
        b
    }
}

/// A bare host: `localhost`, an IPv4 address, or a dotted host name.
pub open spec fn valid_host_spec(s: Seq<u8>) -> bool {
    if s.len() == 0 {
        false
    } else if is_localhost(s) {
        true
    } else if forall|i: int| 0 <= i < s.len() ==> (is_digit(#[trigger] s[i]) || s[i] == 0x2E) {
        ipv4_spec(s)
    } else {
        contains_byte(s, 0x2E) && valid_hostname_spec(s)
    }
}

/// Whether the bytes `s` (already trimmed) read as a URL.
pub open spec fn url_bytes_spec(s: Seq<u8>) -> bool {
    if s.len() == 0 || s.len() > MAX_URL_LEN || has_rejected_spec(s) {
        false
    } else if contains_byte(s, 0x3A) {
        let c = first_index(s, 0x3A);
        if c + 2 < s.len() && s[c + 1] == 0x2F && s[c + 2] == 0x2F {
            valid_scheme_spec(s.subrange(0, c))
        } else {
            valid_hostname_spec(s.subrange(0, c)) && valid_port_spec(s.subrange(c + 1, s.len() as int))
        }
    } else {
        valid_host_spec(s)
    }
}

/// Whether `input`, with surrounding white space removed, reads as a URL.
pub open spec fn is_url_spec(input: Seq<char>) -> bool {
    url_bytes_spec(vstd::utf8::encode_utf8(trim_spec(input)))
}

/// Calls `memchr::memchr`, which returns the index of the first
/// occurrence of `needle` in `haystack`, or `None` when there is none.
#[verifier::external_body]
fn find_byte(needle: u8, haystack: &[u8]) -> (res: Option<usize>)
    ensures
        match res {
            Some(i) => i < haystack@.len() && haystack@[i as int] == needle && forall|j: int|
                0 <= j < i ==> haystack@[j] != needle,
            None => forall|j: int| 0 <= j < haystack@.len() ==> haystack@[j] != needle,
        },
{
    memchr::memchr(needle, haystack)
}

proof fn lemma_first_index(s: Seq<u8>, b: u8, i: int)
    requires
        0 <= i < s.len(),
        s[i] == b,
        forall|j: int| 0 <= j < i ==> s[j] != b,
    ensures
        first_index(s, b) == i,
        contains_byte(s, b),
    decreases i,
{
    if i > 0 {
        lemma_first_index(s.drop_first(), b, i - 1);
    }
}


/// How the parts of a prefix of `s` relate to the parts of a longer prefix:
/// finished parts stay, the open part grows.
pub proof fn lemma_split_prefix(s: Seq<u8>, sep: u8, i: int, j: int)
    requires
        0 <= i <= j <= s.len(),
    ensures
        ({
            let a = split_on(s.take(i), sep);
            let b = split_on(s.take(j), sep);
            &&& a.len() <= b.len()
            &&& forall|k: int| 0 <= k < a.len() - 1 ==> #[trigger] b[k] == a[k]
            &&& b[a.len() - 1].len() >= a.last().len()
            &&& b[a.len() - 1].take(a.last().len() as int) == a.last()
        }),
    decreases j - i,
{
    lemma_split_len(s.take(i), sep);
    if i < j {
        lemma_split_prefix(s, sep, i, j - 1);
        lemma_split_len(s.take(j - 1), sep);
        assert(s.take(j).drop_last() =~= s.take(j - 1));
        let a = split_on(s.take(i), sep);
        let c = split_on(s.take(j - 1), sep);
        let b = split_on(s.take(j), sep);
        if s.take(j).last() == sep {
            assert(b == c.push(Seq::empty()));
        } else {
            assert(b == c.update(c.len() - 1, c.last().push(s.take(j).last())));
            if a.len() == c.len() {
                assert(b[a.len() - 1].take(a.last().len() as int) =~= c[a.len() - 1].take(
                    a.last().len() as int,
                ));
            }
        }
    } else {
        let a = split_on(s.take(i), sep);
        assert(split_on(s.take(j), sep)[a.len() - 1].take(a.last().len() as int) =~= a.last());
    }
}

/// The split of any sequence has at least one part.
pub proof fn lemma_split_len(s: Seq<u8>, sep: u8)
    ensures
        split_on(s, sep).len() >= 1,
    decreases s.len(),
{
    if s.len() > 0 {
        lemma_split_len(s.drop_last(), sep);
    }
}

/// The split of a sequence extended by one byte.
pub proof fn lemma_split_push(s: Seq<u8>, sep: u8, i: int)
    requires
        0 <= i < s.len(),
    ensures
        split_on(s.take(i + 1), sep) == (if s[i] == sep {
            split_on(s.take(i), sep).push(Seq::empty())
        } else {
            split_on(s.take(i), sep).update(
                split_on(s.take(i), sep).len() - 1,
                split_on(s.take(i), sep).last().push(s[i]),
            )
        }),
{
    assert(s.take(i + 1).drop_last() =~= s.take(i));
}

/// The value of a digit string never shrinks when digits are appended.
pub proof fn lemma_decimal_value_prefix(s: Seq<u8>, k: int)
    requires
        0 <= k <= s.len(),
    ensures
        decimal_value(s) >= decimal_value(s.take(k)),
    decreases s.len() - k,
{
    if k < s.len() {
        lemma_decimal_value_prefix(s, k + 1);
        assert(s.take(k + 1).drop_last() =~= s.take(k));
    } else {
        assert(s.take(k) =~= s);
    }
}


/// Whether any byte of `bytes` is one of `< > " ' \` or a space.
fn has_rejected_chars(bytes: &[u8]) -> (res: bool)
    ensures
        res == has_rejected_spec(bytes@),
{
    let mut i: usize = 0;
    while i < bytes.len()
        invariant
            i <= bytes@.len(),
            forall|j: int| 0 <= j < i ==> !is_rejected_byte(#[trigger] bytes@[j]),
        decreases bytes@.len() - i,
    {
        let b = bytes[i];
        if b == 0x3C || b == 0x3E || b == 0x22 || b == 0x27 || b == 0x5C || b == 0x20 {
            return true;
        }
        i = i + 1;
    }
    false
}

/// Whether `scheme` is a non-empty run of ASCII letters.
fn is_valid_scheme(scheme: &[u8]) -> (res: bool)
    ensures
        res == valid_scheme_spec(scheme@),
{
    if scheme.len() == 0 {
        return false;
    }
    let mut i: usize = 0;
    while i < scheme.len()
        invariant
            i <= scheme@.len(),
            forall|j: int| 0 <= j < i ==> is_alpha(#[trigger] scheme@[j]),
        decreases scheme@.len() - i,
    {
        let b = scheme[i];
        if !((0x41 <= b && b <= 0x5A) || (0x61 <= b && b <= 0x7A)) {
            return false;
        }
        i = i + 1;
    }
    true
}

/// Whether `port` is one to five digits with value at most 65535.
fn is_valid_port(port: &[u8]) -> (res: bool)
    ensures
        res == valid_port_spec(port@),
{
    if port.len() == 0 || port.len() > 5 {
        return false;
    }
    let mut val: u32 = 0;
    let mut i: usize = 0;
    while i < port.len()
        invariant
            i <= port@.len() <= 5,
            all_digits(port@.take(i as int)),
            val == decimal_value(port@.take(i as int)),
            val < pow10(i as nat),
        decreases port@.len() - i,
    {
        let b = port[i];
        if !(0x30 <= b && b <= 0x39) {
            return false;
        }
        assert(port@.take(i + 1).drop_last() =~= port@.take(i as int));
        proof {
            lemma_pow10_small((i + 1) as nat);
        }
        assert(val * 10 + 9 < pow10((i + 1) as nat)) by (nonlinear_arith)
            requires val < pow10(i as nat), pow10((i + 1) as nat) == pow10(i as nat) * 10;
        val = val * 10 + (b - 0x30) as u32;
        i = i + 1;
    }
    assert(port@.take(i as int) =~= port@);
    val <= 65535
}

proof fn lemma_pow10_small(n: nat)
    requires
        n <= 5,
    ensures
        pow10(n) <= 100000,
        n > 0 ==> pow10(n) == pow10((n - 1) as nat) * 10,
{
    reveal_with_fuel(pow10, 6);
}

/// Ten to the power `n`.
pub open spec fn pow10(n: nat) -> nat
    decreases n,
{
    if n == 0 {
        1
    } else {
        10 * pow10((n - 1) as nat)
    }
}


/// Whether `bytes` is a valid host name (RFC 952 / RFC 1123).
fn is_valid_hostname(bytes: &[u8]) -> (res: bool)
    ensures
        res == valid_hostname_spec(bytes@),
{
    let ghost s = bytes@;
    if bytes.len() == 0 || bytes.len() > 255 {
        return false;
    }
    assert(s.take(s.len() as int) =~= s);
    let mut label_len: usize = 0;
    let mut prev: u8 = 0x2E;
    let mut i: usize = 0;
    assert(s.take(0) =~= Seq::<u8>::empty());
    while i < bytes.len()
        invariant
            s == bytes@,
            1 <= s.len() <= 255,
            s.take(s.len() as int) == s,
            i <= s.len(),
            label_len <= 63,
            ({
                let p = split_on(s.take(i as int), 0x2E);
                &&& p.len() >= 1
                &&& forall|k: int| 0 <= k < p.len() - 1 ==> valid_label(#[trigger] p[k])
                &&& p.last().len() == label_len
                &&& forall|j: int|
                    0 <= j < label_len ==> (is_alnum(#[trigger] p.last()[j]) || p.last()[j] == 0x2D)
                &&& label_len > 0 ==> p.last()[0] != 0x2D && prev == p.last().last()
                &&& label_len == 0 ==> prev == 0x2E
            }),
        decreases s.len() - i,
    {
        let b = bytes[i];
        let ghost p = split_on(s.take(i as int), 0x2E);
        proof {
            lemma_split_push(s, 0x2E, i as int);
            lemma_split_prefix(s, 0x2E, i + 1, s.len() as int);
            lemma_split_len(s.take(i as int), 0x2E);
        }
        let ghost q = split_on(s.take(i + 1), 0x2E);
        let ghost f = split_on(s, 0x2E);
        if b == 0x2E {
            if label_len == 0 || prev == 0x2D {
                assert(f[p.len() - 1] == p.last());
                assert(!valid_label(f[p.len() - 1]));
                return false;
            }
            label_len = 0;
        } else {
            if label_len == 0 && b == 0x2D {
                assert(f[q.len() - 1].take(1)[0] == q.last()[0]);
                assert(!valid_label(f[q.len() - 1]));
                return false;
            }
            if !((0x30 <= b && b <= 0x39) || (0x41 <= b && b <= 0x5A) || (0x61 <= b && b <= 0x7A))
                && b != 0x2D {
                assert(f[q.len() - 1].take(q.last().len() as int)[label_len as int] == b);
                assert(!valid_label(f[q.len() - 1]));
                return false;
            }
            label_len = label_len + 1;
            if label_len > 63 {
                assert(!valid_label(f[q.len() - 1]));
                return false;
            }
        }
        prev = b;
        i = i + 1;
    }
    label_len > 0 && prev != 0x2D
}


/// Whether `bytes` is four dot-separated octets.
fn is_dotted_quad(bytes: &[u8]) -> (res: bool)
    ensures
        res == dotted_quad_spec(bytes@),
{
    let ghost s = bytes@;
    assert(s.take(s.len() as int) =~= s);
    assert(s.take(0) =~= Seq::<u8>::empty());
    let mut dots: u8 = 0;
    let mut digit_count: u8 = 0;
    let mut octet_val: u16 = 0;
    let mut i: usize = 0;
    while i < bytes.len()
        invariant
            s == bytes@,
            s.take(s.len() as int) == s,
            i <= s.len(),
            dots <= 3,
            digit_count <= 3,
            octet_val <= 255,
            ({
                let p = split_on(s.take(i as int), 0x2E);
                &&& p.len() == dots + 1
                &&& forall|k: int| 0 <= k < p.len() - 1 ==> valid_octet(#[trigger] p[k])
                &&& p.last().len() == digit_count
                &&& all_digits(p.last())
                &&& decimal_value(p.last()) == octet_val
            }),
        decreases s.len() - i,
    {
        let b = bytes[i];
        let ghost p = split_on(s.take(i as int), 0x2E);
        proof {
            lemma_split_push(s, 0x2E, i as int);
            lemma_split_prefix(s, 0x2E, i + 1, s.len() as int);
            lemma_split_len(s.take(i as int), 0x2E);
        }
        let ghost q = split_on(s.take(i + 1), 0x2E);
        let ghost f = split_on(s, 0x2E);
        if 0x30 <= b && b <= 0x39 {
            digit_count = digit_count + 1;
            if digit_count > 3 {
                assert(!valid_octet(f[q.len() - 1]));
                return false;
            }
            assert(q.last().drop_last() =~= p.last());
            octet_val = octet_val * 10 + (b - 0x30) as u16;
            if octet_val > 255 {
                proof {
                    lemma_decimal_value_prefix(f[q.len() - 1], q.last().len() as int);
                }
                assert(!valid_octet(f[q.len() - 1]));
                return false;
            }
            assert forall|j: int| 0 <= j < q.last().len() implies is_digit(#[trigger] q.last()[j]) by {
                if j < p.last().len() {
                    assert(q.last()[j] == p.last()[j]);
                }
            }
        } else if b == 0x2E {
            if digit_count == 0 {
                assert(f[p.len() - 1] == p.last());
                assert(!valid_octet(f[p.len() - 1]));
                return false;
            }
            dots = dots + 1;
            if dots > 3 {
                return false;
            }
            digit_count = 0;
            octet_val = 0;
        } else {
            assert(f[q.len() - 1].take(q.last().len() as int)[digit_count as int] == b);
            assert(!valid_octet(f[q.len() - 1]));
            return false;
        }
        i = i + 1;
    }
    dots == 3 && digit_count > 0
}

/// An IPv4 address with an optional `:port` suffix.
fn is_ipv4(bytes: &[u8]) -> (res: bool)
    ensures
        res == ipv4_spec(bytes@),
{
    match find_byte(0x3A, bytes) {
        Some(colon) => {
            proof {
                lemma_first_index(bytes@, 0x3A, colon as int);
            }
            let n = bytes.len();
            assert(colon < n);
            let port = &bytes[colon + 1..n];
            if !is_valid_port(port) {
                return false;
            }
            let quad = &bytes[0..colon];
            is_dotted_quad(quad)
        },
        None => {
            is_dotted_quad(bytes)
        },
    }
}


/// ASCII-case-insensitive comparison with `localhost`.
fn eq_localhost(bytes: &[u8]) -> (res: bool)
    ensures
        res == is_localhost(bytes@),
{
    let lit: [u8; 9] = [0x6C, 0x6F, 0x63, 0x61, 0x6C, 0x68, 0x6F, 0x73, 0x74];
    let ghost l = localhost_bytes();
    assert(lit@ =~= l);
    if bytes.len() != 9 {
        return false;
    }
    let mut i: usize = 0;
    while i < 9
        invariant
            bytes@.len() == 9,
            lit@ == l,
            l == localhost_bytes(),
            i <= 9,
            forall|j: int| 0 <= j < i ==> ascii_lower(#[trigger] bytes@[j]) == l[j],
        decreases 9 - i,
    {
        let b = bytes[i];
        let lower = if 0x41 <= b && b <= 0x5A {
            b + 32
        } else {
            b
        };
        assert(lower == ascii_lower(bytes@[i as int]));
        if lower != lit[i] {
            assert(lit@[i as int] == l[i as int]);
            assert(ascii_lower(bytes@[i as int]) != l[i as int]);
            return false;
        }
        i = i + 1;
    }
    true
}

/// A bare host: `localhost`, an IPv4 address or a dotted host name.
fn is_valid_host(bytes: &[u8]) -> (res: bool)
    ensures
        res == valid_host_spec(bytes@),
{
    if bytes.len() == 0 {
        return false;
    }
    if eq_localhost(bytes) {
        return true;
    }
    let mut all_numeric = true;
    let mut i: usize = 0;
    while i < bytes.len()
        invariant
            i <= bytes@.len(),
            all_numeric == forall|j: int|
                0 <= j < i ==> (is_digit(#[trigger] bytes@[j]) || bytes@[j] == 0x2E),
        decreases bytes@.len() - i,
    {
        let b = bytes[i];
        if !((0x30 <= b && b <= 0x39) || b == 0x2E) {
            all_numeric = false;
        }
        i = i + 1;
    }
    if all_numeric {
        return is_ipv4(bytes);
    }
    let dot = find_byte(0x2E, bytes);
    proof {
        if let Some(d) = dot {
            lemma_first_index(bytes@, 0x2E, d as int);
        }
    }
    dot.is_some() && is_valid_hostname(bytes)
}

/// Whether `input`, with surrounding white space removed, reads as a URL:
/// `scheme://...` with an alphabetic scheme, `host:port`, `localhost`, an
/// IPv4 address (optionally with a port) or a dotted host name, at most
/// 2048 bytes long and free of `< > " ' \` and spaces.
pub fn is_url(input: &str) -> (res: bool)
    ensures
        res == is_url_spec(input@),
{
    let s = trim_str(input);
    let bytes = s.as_bytes();
    let n = bytes.len();
    if n == 0 || n > MAX_URL_LEN {
        return false;
    }
    if has_rejected_chars(bytes) {
        return false;
    }
    match find_byte(0x3A, bytes) {
        Some(colon) => {
            proof {
                lemma_first_index(bytes@, 0x3A, colon as int);
            }
            assert(colon < n);
            if colon + 2 < n && bytes[colon + 1] == 0x2F && bytes[colon + 2] == 0x2F {
                is_valid_scheme(&bytes[0..colon])
            } else {
                let host = &bytes[0..colon];
                let port = &bytes[colon + 1..n];
                is_valid_hostname(host) && is_valid_port(port)
            }
        },
        None => is_valid_host(bytes),
    }
}

/// White space around the input does not change whether it is a URL.
pub proof fn law_url_ignores_surrounding_space(input: Seq<char>)
    ensures
        is_url_spec(trim_spec(input)) == is_url_spec(input),
{
    crate::text::lemma_trim_idempotent(input);
}

/// `s` with its ASCII letters lower-cased.
pub open spec fn lower_all(s: Seq<u8>) -> Seq<u8> {
    s.map_values(|b: u8| ascii_lower(b))
}

/// Lower-casing each part of a split.
pub open spec fn lower_parts(p: Seq<Seq<u8>>) -> Seq<Seq<u8>> {
    p.map_values(|x: Seq<u8>| lower_all(x))
}

proof fn lemma_split_lower(s: Seq<u8>)
    ensures
        split_on(lower_all(s), 0x2E) == lower_parts(split_on(s, 0x2E)),
    decreases s.len(),
{
    lemma_split_len(s, 0x2E);
    if s.len() == 0 {
        assert(lower_all(s) == Seq::<u8>::empty());
        assert(lower_all(Seq::<u8>::empty()) == Seq::<u8>::empty());
        assert(lower_parts(seq![Seq::<u8>::empty()]) == seq![Seq::<u8>::empty()]);
    } else {
        let l = lower_all(s);
        assert(l.drop_last() == lower_all(s.drop_last()));
        lemma_split_lower(s.drop_last());
        lemma_split_len(s.drop_last(), 0x2E);
        let p = split_on(s.drop_last(), 0x2E);
        if s.last() == 0x2E {
            assert(lower_all(Seq::<u8>::empty()) == Seq::<u8>::empty());
            assert(lower_parts(p.push(Seq::empty())) == lower_parts(p).push(Seq::empty()));
        } else {
            let q = p.update(p.len() - 1, p.last().push(s.last()));
            assert(lower_all(p.last().push(s.last())) == lower_all(p.last()).push(ascii_lower(s.last())));
            assert(lower_parts(q) == lower_parts(p).update(
                p.len() - 1,
                lower_parts(p).last().push(ascii_lower(s.last())),
            ));
        }
    }
}

proof fn lemma_first_index_lower(s: Seq<u8>)
    ensures
        first_index(lower_all(s), 0x3A) == first_index(s, 0x3A),
        contains_byte(lower_all(s), 0x3A) == contains_byte(s, 0x3A),
    decreases s.len(),
{
    let l = lower_all(s);
    if s.len() > 0 {
        assert(l.drop_first() == lower_all(s.drop_first()));
        lemma_first_index_lower(s.drop_first());
        if contains_byte(s.drop_first(), 0x3A) {
            let w = choose|w: int| 0 <= w < s.drop_first().len() && s.drop_first()[w] == 0x3A;
            assert(s[w + 1] == 0x3A);
        }
        if contains_byte(l.drop_first(), 0x3A) {
            let w = choose|w: int| 0 <= w < l.drop_first().len() && l.drop_first()[w] == 0x3A;
            assert(l[w + 1] == 0x3A);
        }
        if contains_byte(s, 0x3A) && s[0] != 0x3A {
            let w = choose|w: int| 0 <= w < s.len() && s[w] == 0x3A;
            assert(s.drop_first()[w - 1] == 0x3A);
        }
        if contains_byte(l, 0x3A) && l[0] != 0x3A {
            let w = choose|w: int| 0 <= w < l.len() && l[w] == 0x3A;
            assert(l.drop_first()[w - 1] == 0x3A);
        }
    }
}

proof fn lemma_hostname_lower(s: Seq<u8>)
    ensures
        valid_hostname_spec(lower_all(s)) == valid_hostname_spec(s),
{
    lemma_split_lower(s);
    let p = split_on(s, 0x2E);
    let lp = split_on(lower_all(s), 0x2E);
    assert forall|i: int| 0 <= i < p.len() implies valid_label(#[trigger] lp[i]) == valid_label(p[i]) by {
        let x = p[i];
        assert(lp[i] == lower_all(x));
        if x.len() > 0 {
            assert(lower_all(x)[0] == ascii_lower(x[0]));
            assert(lower_all(x).last() == ascii_lower(x.last()));
        }
        if valid_label(x) {
            assert forall|k: int| 0 <= k < x.len() implies (is_alnum(#[trigger] lower_all(x)[k])
                || lower_all(x)[k] == 0x2D) by {
                assert(lower_all(x)[k] == ascii_lower(x[k]));
            }
        }
        if valid_label(lower_all(x)) {
            assert forall|k: int| 0 <= k < x.len() implies (is_alnum(#[trigger] x[k]) || x[k] == 0x2D) by {
                assert(lower_all(x)[k] == ascii_lower(x[k]));
            }
        }
    }
    if valid_hostname_spec(s) {
        assert forall|i: int| 0 <= i < lp.len() implies valid_label(#[trigger] lp[i]) by {
            assert(valid_label(p[i]));
        }
    }
    if valid_hostname_spec(lower_all(s)) {
        assert forall|i: int| 0 <= i < p.len() implies valid_label(#[trigger] p[i]) by {
            assert(valid_label(lp[i]));
        }
    }
}

proof fn lemma_digits_lower(s: Seq<u8>)
    requires
        forall|i: int| 0 <= i < s.len() ==> (is_digit(#[trigger] s[i]) || s[i] == 0x2E || s[i] == 0x3A),
    ensures
        lower_all(s) == s,
{
    assert(lower_all(s) =~= s);
}

/// Host names, schemes and `localhost` ignore ASCII case: bytes read as a
/// URL exactly when their lower-cased form does, so `GitHub.com` is a URL
/// as `github.com` is.
pub proof fn law_url_ignores_case(s: Seq<u8>)
    ensures
        url_bytes_spec(lower_all(s)) == url_bytes_spec(s),
{
    let l = lower_all(s);
    assert(l.len() == s.len());
    assert(has_rejected_spec(l) == has_rejected_spec(s)) by {
        if has_rejected_spec(s) {
            let w = choose|w: int| 0 <= w < s.len() && is_rejected_byte(s[w]);
            assert(is_rejected_byte(l[w]));
        }
        if has_rejected_spec(l) {
            let w = choose|w: int| 0 <= w < l.len() && is_rejected_byte(l[w]);
            assert(is_rejected_byte(s[w]));
        }
    }
    lemma_first_index_lower(s);
    if contains_byte(s, 0x3A) {
        let c = first_index(s, 0x3A);
        assert(0 <= c < s.len()) by {
            let w = choose|w: int| 0 <= w < s.len() && s[w] == 0x3A;
            lemma_first_index_bound(s, w);
        }
        assert(l.subrange(0, c) == lower_all(s.subrange(0, c)));
        assert(l.subrange(c + 1, s.len() as int) == lower_all(s.subrange(c + 1, s.len() as int)));
        lemma_hostname_lower(s.subrange(0, c));
        let sc = s.subrange(0, c);
        assert(valid_scheme_spec(lower_all(sc)) == valid_scheme_spec(sc)) by {
            if valid_scheme_spec(sc) {
                assert forall|i: int| 0 <= i < sc.len() implies is_alpha(#[trigger] lower_all(sc)[i]) by {
                    assert(is_alpha(sc[i]));
                }
            }
            if valid_scheme_spec(lower_all(sc)) {
                assert forall|i: int| 0 <= i < sc.len() implies is_alpha(#[trigger] sc[i]) by {
                    assert(is_alpha(lower_all(sc)[i]));
                }
            }
        }
        let sp = s.subrange(c + 1, s.len() as int);
        assert(valid_port_spec(lower_all(sp)) == valid_port_spec(sp)) by {
            if all_digits(sp) {
                assert(lower_all(sp) =~= sp);
            }
            if all_digits(lower_all(sp)) {
                assert forall|i: int| 0 <= i < sp.len() implies is_digit(#[trigger] sp[i]) by {
                    assert(is_digit(lower_all(sp)[i]));
                }
            }
        }
        if c + 2 < s.len() {
            assert(l[c + 1] == ascii_lower(s[c + 1]));
            assert(l[c + 2] == ascii_lower(s[c + 2]));
        }
    } else {
        assert(is_localhost(l) == is_localhost(s)) by {
            if s.len() == 9 {
                assert forall|i: int| 0 <= i < 9 implies ascii_lower(#[trigger] l[i]) == ascii_lower(s[i]) by {
                    assert(l[i] == ascii_lower(s[i]));
                }
                if is_localhost(s) {
                    assert forall|i: int| 0 <= i < 9 implies ascii_lower(#[trigger] l[i])
                        == localhost_bytes()[i] by {
                        assert(ascii_lower(s[i]) == localhost_bytes()[i]);
                    }
                }
                if is_localhost(l) {
                    assert forall|i: int| 0 <= i < 9 implies ascii_lower(#[trigger] s[i])
                        == localhost_bytes()[i] by {
                        assert(ascii_lower(l[i]) == localhost_bytes()[i]);
                    }
                }
            }
        }
        let dd = forall|i: int| 0 <= i < s.len() ==> (is_digit(#[trigger] s[i]) || s[i] == 0x2E);
        let ldd = forall|i: int| 0 <= i < l.len() ==> (is_digit(#[trigger] l[i]) || l[i] == 0x2E);
        assert(dd == ldd) by {
            if dd {
                assert forall|i: int| 0 <= i < l.len() implies (is_digit(#[trigger] l[i]) || l[i] == 0x2E) by {
                    assert(is_digit(s[i]) || s[i] == 0x2E);
                }
            }
            if ldd {
                assert forall|i: int| 0 <= i < s.len() implies (is_digit(#[trigger] s[i]) || s[i] == 0x2E) by {
                    assert(is_digit(l[i]) || l[i] == 0x2E);
                }
            }
        }
        if dd {
            lemma_digits_lower(s);
        }
        assert(contains_byte(l, 0x2E) == contains_byte(s, 0x2E)) by {
            if contains_byte(s, 0x2E) {
                let w = choose|w: int| 0 <= w < s.len() && s[w] == 0x2E;
                assert(l[w] == 0x2E);
            }
            if contains_byte(l, 0x2E) {
                let w = choose|w: int| 0 <= w < l.len() && l[w] == 0x2E;
                assert(s[w] == 0x2E);
            }
        }
        lemma_hostname_lower(s);
    }
}

proof fn lemma_first_index_bound(s: Seq<u8>, w: int)
    requires
        0 <= w < s.len(),
        s[w] == 0x3A,
    ensures
        0 <= first_index(s, 0x3A) <= w,
    decreases w,
{
    if s[0] != 0x3A {
        lemma_first_index_bound(s.drop_first(), w - 1);
    }
}

} // verus!

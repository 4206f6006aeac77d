//! A small Pango-markup subset: `<b>`, `<i>`, `<br/>`, `<span font_desc=.. color=..>`
//! and the HTML entities `&quot; &amp; &lt; &gt; &nbsp; &apos;`.

use vstd::prelude::*;
use vstd::utf8::encode_utf8;
use crate::text::{
    byte_len, char_width, chars_of, find_char_from, index_of, lemma_byte_len_concat,
    lemma_byte_len_single, lemma_index_of, push_char, string_of, trim_bounds, trim_spec,
};

verus! {

/// The kinds of tag the markup understands.
#[derive(PartialEq, Eq, Structural, Clone, Copy, Debug)]
pub enum TagKind {
    BoldOpen,
    BoldClose,
    ItalicOpen,
    ItalicClose,
    Br,
    SpanOpen,
    SpanClose,
    Unknown,
}

/// ASCII letters are compared without regard to case.
pub open spec fn ascii_lower_char(c: char) -> char {
    if 'A' <= c && c <= 'Z' {
        ((c as u8) + 32) as u8 as char
    } else {
        c
    }
}

/// ASCII-case-insensitive equality of `a` and the lower-case literal `lit`.
pub open spec fn eq_ignore_case(a: Seq<char>, lit: Seq<char>) -> bool {
    a.len() == lit.len() && forall|i: int| 0 <= i < a.len() ==> ascii_lower_char(#[trigger] a[i]) == lit[i]
}

/// The white space that `split_ascii_whitespace` splits on.
pub open spec fn is_ascii_ws(c: char) -> bool {
    c == ' ' || c == '\t' || c == '\n' || c == '\x0C' || c == '\r'
}

/// Number of leading characters of `s` that satisfy `f`.
pub open spec fn prefix_count(s: Seq<char>, f: spec_fn(char) -> bool) -> nat
    decreases s.len(),
{
    if s.len() > 0 && f(s[0]) {
        1 + prefix_count(s.drop_first(), f)
    } else {
        0
    }
}

/// `s` without the trailing characters equal to `c`.
pub open spec fn trim_end_char(s: Seq<char>, c: char) -> Seq<char>
    decreases s.len(),
{
    if s.len() > 0 && s.last() == c {
        trim_end_char(s.drop_last(), c)
    } else {
        s
    }
}

/// `s` without the leading characters equal to `c`.
pub open spec fn trim_start_char(s: Seq<char>, c: char) -> Seq<char> {
    s.skip(prefix_count(s, is_char(c)) as int)
}

/// The predicate "is `c`".
pub open spec fn is_char(c: char) -> spec_fn(char) -> bool {
    |x: char| x == c
}

/// The first word of `s`, as `split_ascii_whitespace().next()` yields it
/// (empty when there is none).
pub open spec fn first_word(s: Seq<char>) -> Seq<char> {
    let t = s.skip(prefix_count(s, |c: char| is_ascii_ws(c)) as int);
    t.take(prefix_count(t, |c: char| !is_ascii_ws(c)) as int)
}

/// The name a tag body starts with: trimmed, trailing `/` removed,
/// trimmed again, first word.
pub open spec fn tag_name(inner: Seq<char>) -> Seq<char> {
    first_word(trim_spec(trim_end_char(trim_spec(inner), '/')))
}

/// The kind of the tag whose body is `inner`.
pub open spec fn classify_spec(inner: Seq<char>) -> TagKind {
    let n = tag_name(inner);
    if eq_ignore_case(n, seq!['b']) {
        TagKind::BoldOpen
    } else if eq_ignore_case(n, seq!['i']) {
        TagKind::ItalicOpen
    } else if eq_ignore_case(n, seq!['b', 'r']) {
        TagKind::Br
    } else if eq_ignore_case(n, seq!['/', 'b']) {
        TagKind::BoldClose
    } else if eq_ignore_case(n, seq!['/', 'i']) {
        TagKind::ItalicClose
    } else if eq_ignore_case(n, seq!['s', 'p', 'a', 'n']) {
        TagKind::SpanOpen
    } else if eq_ignore_case(n, seq!['/', 's', 'p', 'a', 'n']) {
        TagKind::SpanClose
    } else {
        TagKind::Unknown
    }
}

/// Characterisation of `prefix_count`.
pub proof fn lemma_prefix_count(s: Seq<char>, f: spec_fn(char) -> bool, k: int)
    requires
        0 <= k <= s.len(),
        forall|j: int| 0 <= j < k ==> f(#[trigger] s[j]),
        k == s.len() || !f(s[k]),
    ensures
        prefix_count(s, f) == k,
    decreases k,
{
    if k > 0 {
        lemma_prefix_count(s.drop_first(), f, k - 1);
    }
}

proof fn lemma_trim_end_char_at(s: Seq<char>, c: char, m: int)
    requires
        0 <= m <= s.len(),
        forall|j: int| m <= j < s.len() ==> #[trigger] s[j] == c,
        m == 0 || s[m - 1] != c,
    ensures
        trim_end_char(s, c) == s.take(m),
    decreases s.len() - m,
{
    if m == s.len() {
        assert(s.take(m) =~= s);
    } else {
        lemma_trim_end_char_at(s.drop_last(), c, m);
        assert(s.drop_last().take(m) =~= s.take(m));
    }
}

/// Whether `cs[a..b]` equals the lower-case literal `lit`, ignoring ASCII case.
pub(crate) fn range_eq_ignore_case(cs: &[char], a: usize, b: usize, lit: &[char]) -> (res: bool)
    requires
        a <= b <= cs@.len(),
    ensures
        res == eq_ignore_case(cs@.subrange(a as int, b as int), lit@),
{
    if b - a != lit.len() {
        return false;
    }
    let ghost s = cs@.subrange(a as int, b as int);
    let mut i: usize = 0;
    while i < lit.len()
        invariant
            a <= b <= cs@.len(),
            b - a == lit@.len(),
            s == cs@.subrange(a as int, b as int),
            i <= lit@.len(),
            forall|j: int| 0 <= j < i ==> ascii_lower_char(#[trigger] s[j]) == lit@[j],
        decreases lit@.len() - i,
    {
        let c = cs[a + i];
        let lower = if 'A' <= c && c <= 'Z' {
            ((c as u8) + 32) as char
        } else {
            c
        };
        assert(s[i as int] == c);
        if lower != lit[i] {
            return false;
        }
        i = i + 1;
    }
    true
}

/// Classify the tag whose body is `cs[lo..hi]`.
fn classify_range(cs: &[char], lo: usize, hi: usize) -> (res: TagKind)
    requires
        lo <= hi <= cs@.len(),
    ensures
        res == classify_spec(cs@.subrange(lo as int, hi as int)),
{
    let ghost s0 = cs@.subrange(lo as int, hi as int);
    let (a, mut b) = trim_bounds(cs, lo, hi);
    let ghost s1 = cs@.subrange(a as int, b as int);
    let ghost b1 = b;
    while b > a && cs[b - 1] == '/'
        invariant
            lo <= a <= b <= b1 <= hi <= cs@.len(),
            forall|j: int| b <= j < b1 ==> #[trigger] cs@[j] == '/',
        decreases b - a,
    {
        b = b - 1;
    }
    proof {
        assert forall|j: int| b - a <= j < s1.len() implies #[trigger] s1[j] == '/' by {
            assert(s1[j] == cs@[a + j]);
        }
        lemma_trim_end_char_at(s1, '/', b - a);
        assert(s1.take(b - a) =~= cs@.subrange(a as int, b as int));
    }
    let (a2, b2) = trim_bounds(cs, a, b);
    let ghost s2 = cs@.subrange(a2 as int, b2 as int);
    let mut w = a2;
    while w < b2 && is_ascii_ws_char(cs[w])
        invariant
            a2 <= w <= b2 <= cs@.len(),
            forall|j: int| a2 <= j < w ==> is_ascii_ws(#[trigger] cs@[j]),
        decreases b2 - w,
    {
        w = w + 1;
    }
    let mut e = w;
    while e < b2 && !is_ascii_ws_char(cs[e])
        invariant
            w <= e <= b2 <= cs@.len(),
            forall|j: int| w <= j < e ==> !is_ascii_ws(#[trigger] cs@[j]),
        decreases b2 - e,
    {
        e = e + 1;
    }
    proof {
        let f1 = |c: char| is_ascii_ws(c);
        let f2 = |c: char| !is_ascii_ws(c);
        assert forall|j: int| 0 <= j < w - a2 implies f1(#[trigger] s2[j]) by {
            assert(s2[j] == cs@[a2 + j]);
        }
        lemma_prefix_count(s2, f1, w - a2);
        let t = s2.skip(w - a2);
        assert(t =~= cs@.subrange(w as int, b2 as int));
        assert forall|j: int| 0 <= j < e - w implies f2(#[trigger] t[j]) by {
            assert(t[j] == cs@[w + j]);
        }
        lemma_prefix_count(t, f2, e - w);
        assert(t.take(e - w) =~= cs@.subrange(w as int, e as int));
    }
    if range_eq_ignore_case(cs, w, e, &['b']) {
        TagKind::BoldOpen
    } else if range_eq_ignore_case(cs, w, e, &['i']) {
        TagKind::ItalicOpen
    } else if range_eq_ignore_case(cs, w, e, &['b', 'r']) {
        TagKind::Br
    } else if range_eq_ignore_case(cs, w, e, &['/', 'b']) {
        TagKind::BoldClose
    } else if range_eq_ignore_case(cs, w, e, &['/', 'i']) {
        TagKind::ItalicClose
    } else if range_eq_ignore_case(cs, w, e, &['s', 'p', 'a', 'n']) {
        TagKind::SpanOpen
    } else if range_eq_ignore_case(cs, w, e, &['/', 's', 'p', 'a', 'n']) {
        TagKind::SpanClose
    } else {
        TagKind::Unknown
    }
}

/// Whether `c` is white space to `split_ascii_whitespace`.
fn is_ascii_ws_char(c: char) -> (res: bool)
    ensures
        res == is_ascii_ws(c),
{
    c == ' ' || c == '\t' || c == '\n' || c == '\x0C' || c == '\r'
}

/// The kind of the tag whose body (between `<` and `>`) is `inner`.
pub fn classify_tag(inner: &str) -> (res: TagKind)
    ensures
        res == classify_spec(inner@),
{
    let cs = chars_of(inner);
    assert(cs@.subrange(0, cs@.len() as int) =~= cs@);
    classify_range(cs.as_slice(), 0, cs.len())
}


pub open spec fn ent_quot() -> Seq<char> {
    seq!['&', 'q', 'u', 'o', 't', ';']
}

pub open spec fn ent_amp() -> Seq<char> {
    seq!['&', 'a', 'm', 'p', ';']
}

pub open spec fn ent_lt() -> Seq<char> {
    seq!['&', 'l', 't', ';']
}

pub open spec fn ent_gt() -> Seq<char> {
    seq!['&', 'g', 't', ';']
}

pub open spec fn ent_nbsp() -> Seq<char> {
    seq!['&', 'n', 'b', 's', 'p', ';']
}

pub open spec fn ent_apos() -> Seq<char> {
    seq!['&', 'a', 'p', 'o', 's', ';']
}

/// What an `&...` sequence stands for: one of the six known entities, or
/// itself.
pub open spec fn entity_text(tok: Seq<char>) -> Seq<char> {
    if tok == ent_quot() {
        seq!['"']
    } else if tok == ent_amp() {
        seq!['&']
    } else if tok == ent_lt() {
        seq!['<']
    } else if tok == ent_gt() {
        seq!['>']
    } else if tok == ent_nbsp() {
        seq![' ']
    } else if tok == ent_apos() {
        seq!['\'']
    } else {
        tok
    }
}

/// Index of the last character of the entity that starts `s` (`s[0]` is
/// `&`): the first `;` when it lies within the first seven bytes, else
/// the end of `s`.
pub open spec fn entity_end(s: Seq<char>) -> int {
    match index_of(s, ';') {
        Some(k) => if byte_len(s.take(k)) <= 6 {
            k
        } else {
            s.len() - 1
        },
        None => s.len() - 1,
    }
}

/// `s` with HTML entities replaced.
pub open spec fn unescape_spec(s: Seq<char>) -> Seq<char>
    decreases s.len(),
{
    if s.len() == 0 {
        Seq::empty()
    } else if s[0] != '&' {
        seq![s[0]] + unescape_spec(s.drop_first())
    } else {
        let e = entity_end(s);
        proof {
            lemma_index_of(s, ';');
        }
        entity_text(s.take(e + 1)) + unescape_spec(s.skip(e + 1))
    }
}

/// Whether `cs[a..b]` equals `lit`.
fn range_eq(cs: &[char], a: usize, b: usize, lit: &[char]) -> (res: bool)
    requires
        a <= b <= cs@.len(),
    ensures
        res == (cs@.subrange(a as int, b as int) == lit@),
{
    if b - a != lit.len() {
        return false;
    }
    let mut i: usize = 0;
    while i < lit.len()
        invariant
            a <= b <= cs@.len(),
            b - a == lit@.len(),
            i <= lit@.len(),
            forall|j: int| 0 <= j < i ==> cs@[a + j] == lit@[j],
        decreases lit@.len() - i,
    {
        if cs[a + i] != lit[i] {
            assert(cs@.subrange(a as int, b as int)[i as int] != lit@[i as int]);
            return false;
        }
        i = i + 1;
    }
    assert(cs@.subrange(a as int, b as int) =~= lit@);
    true
}

/// The character a known entity `cs[a..b]` stands for.
fn entity_char(cs: &[char], a: usize, b: usize) -> (res: Option<char>)
    requires
        a <= b <= cs@.len(),
    ensures
        match res {
            Some(c) => entity_text(cs@.subrange(a as int, b as int)) == seq![c],
            None => entity_text(cs@.subrange(a as int, b as int)) == cs@.subrange(
                a as int,
                b as int,
            ),
        },
{
    let quot = ['&', 'q', 'u', 'o', 't', ';'];
    let amp = ['&', 'a', 'm', 'p', ';'];
    let lt = ['&', 'l', 't', ';'];
    let gt = ['&', 'g', 't', ';'];
    let nbsp = ['&', 'n', 'b', 's', 'p', ';'];
    let apos = ['&', 'a', 'p', 'o', 's', ';'];
    assert(quot@ =~= ent_quot());
    assert(amp@ =~= ent_amp());
    assert(lt@ =~= ent_lt());
    assert(gt@ =~= ent_gt());
    assert(nbsp@ =~= ent_nbsp());
    assert(apos@ =~= ent_apos());
    if range_eq(cs, a, b, &quot) {
        Some('"')
    } else if range_eq(cs, a, b, &amp) {
        Some('&')
    } else if range_eq(cs, a, b, &lt) {
        Some('<')
    } else if range_eq(cs, a, b, &gt) {
        Some('>')
    } else if range_eq(cs, a, b, &nbsp) {
        Some(' ')
    } else if range_eq(cs, a, b, &apos) {
        Some('\'')
    } else {
        None
    }
}

/// Byte length grows with the prefix.
pub proof fn lemma_byte_len_prefix(s: Seq<char>, j: int, k: int)
    requires
        0 <= j <= k <= s.len(),
    ensures
        byte_len(s.take(j)) <= byte_len(s.take(k)),
{
    assert(s.take(k) =~= s.take(j) + s.subrange(j, k));
    lemma_byte_len_concat(s.take(j), s.subrange(j, k));
}

/// Appends the unescaped form of `cs[lo..hi]` to `out`.
fn unescape_into(cs: &[char], lo: usize, hi: usize, out: &mut Vec<char>)
    requires
        lo <= hi <= cs@.len(),
    ensures
        final(out)@ == old(out)@ + unescape_spec(cs@.subrange(lo as int, hi as int)),
{
    let ghost start = out@;
    let mut i = lo;
    assert(start + unescape_spec(cs@.subrange(lo as int, hi as int)) =~= out@ + unescape_spec(
        cs@.subrange(i as int, hi as int),
    ));
    while i < hi
        invariant
            lo <= i <= hi <= cs@.len(),
            start + unescape_spec(cs@.subrange(lo as int, hi as int)) == out@ + unescape_spec(
                cs@.subrange(i as int, hi as int),
            ),
        decreases hi - i,
    {
        let ghost s = cs@.subrange(i as int, hi as int);
        let c = cs[i];
        if c != '&' {
            assert(s.drop_first() =~= cs@.subrange(i + 1, hi as int));
            out.push(c);
            assert(out@ + unescape_spec(cs@.subrange(i + 1, hi as int)) =~= (out@.drop_last()
                + (seq![c] + unescape_spec(s.drop_first()))));
            i = i + 1;
        } else {
            // look for `;` within the seven bytes that start at `&`
            let mut j = i;
            let mut w: usize = 0;
            let mut found = false;
            while j < hi && w <= 6 && !found
                invariant
                    i <= j <= hi <= cs@.len(),
                    s == cs@.subrange(i as int, hi as int),
                    w == byte_len(s.take(j - i)),
                    found ==> j < hi && cs@[j as int] == ';' && w <= 6,
                    forall|k: int| i <= k < j ==> cs@[k] != ';',
                    !found ==> forall|k: int| i <= k < j ==> cs@[k] != ';',
                decreases (hi - j) * 2 + (if found { 0int } else { 1int }),
            {
                if cs[j] == ';' {
                    found = true;
                } else {
                    let cw = char_width(cs[j]);
                    proof {
                        assert(s.take(j + 1 - i) =~= s.take(j - i) + seq![cs@[j as int]]);
                        lemma_byte_len_concat(s.take(j - i), seq![cs@[j as int]]);
                        lemma_byte_len_single(cs@[j as int]);
                    }
                    w = w + cw;
                    j = j + 1;
                }
            }
            proof {
                lemma_index_of(s, ';');
                if found {
                    crate::text::lemma_index_of_is(s, ';', j - i);
                } else if j < hi {
                    if let Some(k) = index_of(s, ';') {
                        assert(k >= j - i) by {
                            if k < j - i {
                                assert(cs@[i + k] == ';');
                            }
                        }
                        lemma_byte_len_prefix(s, j - i, k);
                    }
                } else {
                    assert(index_of(s, ';') is None) by {
                        if let Some(k) = index_of(s, ';') {
                            assert(cs@[i + k] == ';');
                        }
                    }
                }
            }
            let end = if found {
                j
            } else {
                hi - 1
            };
            assert(end - i == entity_end(s));
            assert(s.take(end - i + 1) =~= cs@.subrange(i as int, end + 1));
            assert(s.skip(end - i + 1) =~= cs@.subrange(end + 1, hi as int));
            let ghost before = out@;
            match entity_char(cs, i, end + 1) {
                Some(ch) => {
                    out.push(ch);
                },
                None => {
                    let mut k = i;
                    while k <= end
                        invariant
                            i <= k <= end + 1,
                            end < hi <= cs@.len(),
                            out@ == before + cs@.subrange(i as int, k as int),
                        decreases end + 1 - k,
                    {
                        out.push(cs[k]);
                        assert(cs@.subrange(i as int, k + 1) =~= cs@.subrange(i as int, k as int).push(cs@[k as int]));
                        k = k + 1;
                    }
                },
            }
            assert(out@ == before + entity_text(s.take(end - i + 1)));
            assert(out@ + unescape_spec(cs@.subrange(end + 1, hi as int)) =~= before + unescape_spec(s));
            i = end + 1;
        }
    }
    assert(cs@.subrange(i as int, hi as int) =~= Seq::<char>::empty());
    assert(out@ =~= out@ + unescape_spec(Seq::<char>::empty()));
}


/// A piece of markup: plain text, or a tag given by its body (between
/// `<` and `>`) and its whole text (including `<` and `>`).
pub enum Token {
    Text(Seq<char>),
    Tag(Seq<char>, Seq<char>),
}

/// `s` cut into text and tags. A `<` without a later `>` starts text
/// that runs to the end.
pub open spec fn tokens(s: Seq<char>) -> Seq<Token>
    decreases s.len(),
{
    if s.len() == 0 {
        Seq::empty()
    } else {
        proof {
            lemma_index_of(s, '<');
            lemma_index_of(s, '>');
        }
        match index_of(s, '<') {
            None => seq![Token::Text(s)],
            Some(t) => if t > 0 {
                seq![Token::Text(s.take(t))] + tokens(s.skip(t))
            } else {
                match index_of(s, '>') {
                    None => seq![Token::Text(s)],
                    Some(e) => seq![Token::Tag(s.subrange(1, e), s.take(e + 1))] + tokens(
                        s.skip(e + 1),
                    ),
                }
            },
        }
    }
}

/// What a token leaves behind once markup is stripped.
pub open spec fn strip_token(t: Token) -> Seq<char> {
    match t {
        Token::Text(x) => unescape_spec(x),
        Token::Tag(inner, _) => if classify_spec(trim_spec(inner)) == TagKind::Br {
            seq!['\n', '\n']
        } else {
            Seq::empty()
        },
    }
}

pub open spec fn strip_all(ts: Seq<Token>) -> Seq<char>
    decreases ts.len(),
{
    if ts.len() == 0 {
        Seq::empty()
    } else {
        strip_token(ts[0]) + strip_all(ts.drop_first())
    }
}

/// The plain text of `s`: tags removed (`<br>` becomes a blank line) and
/// entities replaced.
pub open spec fn strip_spec(s: Seq<char>) -> Seq<char> {
    strip_all(tokens(s))
}

/// How `tokens` unfolds at `pos` when the next `<` is at `ts > pos`.
proof fn lemma_tokens_text(cs: Seq<char>, pos: int, ts: int)
    requires
        0 <= pos < ts <= cs.len(),
        index_of(cs.skip(pos), '<') == Some(ts - pos),
    ensures
        tokens(cs.skip(pos)) == seq![Token::Text(cs.subrange(pos, ts))] + tokens(cs.skip(ts)),
{
    let s = cs.skip(pos);
    assert(s.take(ts - pos) =~= cs.subrange(pos, ts));
    assert(s.skip(ts - pos) =~= cs.skip(ts));
}

/// How `tokens` unfolds at `pos` when `cs[pos]` is `<` and the next `>`
/// is at `te`.
proof fn lemma_tokens_tag(cs: Seq<char>, pos: int, te: int)
    requires
        0 <= pos < te < cs.len(),
        index_of(cs.skip(pos), '<') == Some(0int),
        index_of(cs.skip(pos), '>') == Some(te - pos),
    ensures
        tokens(cs.skip(pos)) == seq![
            Token::Tag(cs.subrange(pos + 1, te), cs.subrange(pos, te + 1)),
        ] + tokens(cs.skip(te + 1)),
{
    let s = cs.skip(pos);
    assert(s.subrange(1, te - pos) =~= cs.subrange(pos + 1, te));
    assert(s.take(te - pos + 1) =~= cs.subrange(pos, te + 1));
    assert(s.skip(te - pos + 1) =~= cs.skip(te + 1));
}

/// Removes the markup from `content`: tags are dropped, `<br>` becomes
/// `"\n\n"`, entities are replaced and an unclosed `<` is kept as text.
pub fn strip_pango(content: &str) -> (res: String)
    ensures
        res@ == strip_spec(content@),
{
    let chars = chars_of(content);
    let cs = chars.as_slice();
    let n = cs.len();
    let mut out: Vec<char> = Vec::new();
    let mut pos: usize = 0;
    assert(cs@.skip(0) =~= cs@);
    while pos < n
        invariant
            n == cs@.len(),
            cs@ == content@,
            pos <= n,
            out@ + strip_all(tokens(cs@.skip(pos as int))) == strip_spec(cs@),
        decreases n - pos,
    {
        let ghost rest = cs@.skip(pos as int);
        assert(rest.len() > 0);
        match find_char_from(cs, pos, '<') {
            Some(ts) => {
                if ts == pos {
                    match find_char_from(cs, pos, '>') {
                        Some(te) => {
                            proof {
                                lemma_index_of(rest, '>');
                                lemma_index_of(rest, '<');
                                lemma_tokens_tag(cs@, pos as int, te as int);
                            }
                            let (a, b) = trim_bounds(cs, pos + 1, te);
                            let ghost before = out@;
                            if classify_range(cs, a, b) == TagKind::Br {
                                out.push('\n');
                                out.push('\n');
                            }
                            let ghost t = Token::Tag(
                                cs@.subrange(pos + 1, te as int),
                                cs@.subrange(pos as int, te + 1),
                            );
                            assert(out@ =~= before + strip_token(t));
                            assert(strip_all(tokens(rest)) == strip_token(t) + strip_all(
                                tokens(cs@.skip(te + 1)),
                            )) by {
                                assert(tokens(rest).drop_first() =~= tokens(cs@.skip(te + 1)));
                            }
                            assert(out@ + strip_all(tokens(cs@.skip(te + 1))) =~= before
                                + strip_all(tokens(rest)));
                            pos = te + 1;
                        },
                        None => {
                            assert(tokens(rest) == seq![Token::Text(rest)]);
                            assert(strip_all(tokens(rest)) =~= unescape_spec(rest)) by {
                                assert(tokens(rest).drop_first() =~= Seq::<Token>::empty());
                                assert(strip_all(Seq::<Token>::empty()) =~= Seq::<char>::empty());
                            }
                            unescape_into(cs, pos, n, &mut out);
                            assert(cs@.subrange(pos as int, n as int) =~= rest);
                            return string_of(out.as_slice());
                        },
                    }
                } else {
                    proof {
                        lemma_tokens_text(cs@, pos as int, ts as int);
                    }
                    let ghost before = out@;
                    unescape_into(cs, pos, ts, &mut out);
                    assert(strip_all(tokens(rest)) == unescape_spec(cs@.subrange(pos as int, ts as int)) + strip_all(
                        tokens(cs@.skip(ts as int)),
                    )) by {
                        assert(tokens(rest).drop_first() =~= tokens(cs@.skip(ts as int)));
                    }
                    assert(out@ + strip_all(tokens(cs@.skip(ts as int))) =~= before + strip_all(
                        tokens(rest),
                    ));
                    pos = ts;
                }
            },
            None => {
                assert(tokens(rest) == seq![Token::Text(rest)]);
                assert(strip_all(tokens(rest)) =~= unescape_spec(rest)) by {
                    assert(tokens(rest).drop_first() =~= Seq::<Token>::empty());
                    assert(strip_all(Seq::<Token>::empty()) =~= Seq::<char>::empty());
                }
                unescape_into(cs, pos, n, &mut out);
                assert(cs@.subrange(pos as int, n as int) =~= rest);
                return string_of(out.as_slice());
            },
        }
    }
    assert(cs@.skip(pos as int) =~= Seq::<char>::empty());
    assert(out@ =~= out@ + strip_all(tokens(cs@.skip(pos as int))));
    string_of(out.as_slice())
}


/// Whether `cs[a..b]` equals `lit`.
pub fn range_eq_pub(cs: &[char], a: usize, b: usize, lit: &[char]) -> (res: bool)
    requires
        a <= b <= cs@.len(),
    ensures
        res == (cs@.subrange(a as int, b as int) == lit@),
{
    range_eq(cs, a, b, lit)
}

/// Index of the first occurrence of `pat` in `s`.
pub open spec fn find_seq(s: Seq<char>, pat: Seq<char>) -> Option<int>
    decreases s.len(),
{
    if pat.len() > s.len() {
        None
    } else if s.take(pat.len() as int) == pat {
        Some(0)
    } else if s.len() == 0 {
        None
    } else {
        match find_seq(s.drop_first(), pat) {
            Some(i) => Some(i + 1),
            None => None,
        }
    }
}

/// Whether `pat` occurs in `s` at `i`.
pub open spec fn occurs_at(s: Seq<char>, pat: Seq<char>, i: int) -> bool {
    0 <= i && i + pat.len() <= s.len() && s.subrange(i, i + pat.len()) == pat
}

/// Characterisation of `find_seq`.
pub proof fn lemma_find_seq(s: Seq<char>, pat: Seq<char>)
    ensures
        match find_seq(s, pat) {
            Some(i) => occurs_at(s, pat, i) && forall|j: int| 0 <= j < i ==> !occurs_at(s, pat, j),
            None => forall|j: int| !occurs_at(s, pat, j),
        },
    decreases s.len(),
{
    if pat.len() > s.len() {
    } else if s.take(pat.len() as int) == pat {
        assert(s.subrange(0, pat.len() as int) =~= s.take(pat.len() as int));
    } else if s.len() == 0 {
        assert(s.take(0) =~= pat);
    } else {
        lemma_find_seq(s.drop_first(), pat);
        assert(!occurs_at(s, pat, 0)) by {
            assert(s.subrange(0, pat.len() as int) =~= s.take(pat.len() as int));
        }
        assert forall|j: int| j >= 1 implies occurs_at(s, pat, j) == occurs_at(
            s.drop_first(),
            pat,
            j - 1,
        ) by {
            if j + pat.len() <= s.len() {
                assert(s.subrange(j, j + pat.len()) =~= s.drop_first().subrange(
                    j - 1,
                    j - 1 + pat.len(),
                ));
            }
        }
    }
}

/// The occurrence characterisation determines `find_seq`.
pub proof fn lemma_find_seq_is(s: Seq<char>, pat: Seq<char>, i: Option<int>)
    requires
        match i {
            Some(i) => occurs_at(s, pat, i) && forall|j: int| 0 <= j < i ==> !occurs_at(s, pat, j),
            None => forall|j: int| !occurs_at(s, pat, j),
        },
    ensures
        find_seq(s, pat) == i,
{
    lemma_find_seq(s, pat);
    match (find_seq(s, pat), i) {
        (Some(a), Some(b)) => {
            if a < b {
            } else if b < a {
            }
        },
        (Some(a), None) => {},
        (None, Some(b)) => {},
        (None, None) => {},
    }
}

/// The first occurrence of `pat` in `cs[from..hi]`, as an absolute index.
pub fn find_seq_in(cs: &[char], from: usize, hi: usize, pat: &[char]) -> (res: Option<usize>)
    requires
        from <= hi <= cs@.len(),
    ensures
        match res {
            Some(i) => from <= i && i + pat@.len() <= hi && find_seq(
                cs@.subrange(from as int, hi as int),
                pat@,
            ) == Some(i - from),
            None => find_seq(cs@.subrange(from as int, hi as int), pat@) is None,
        },
{
    let ghost s = cs@.subrange(from as int, hi as int);
    let m = pat.len();
    if m == 0 {
        proof {
            assert(s.subrange(0, 0) =~= pat@);
            lemma_find_seq_is(s, pat@, Some(0));
        }
        return Some(from);
    }
    if m > hi - from {
        proof {
            lemma_find_seq_is(s, pat@, None);
        }
        return None;
    }
    let mut i = from;
    while i <= hi - m
        invariant
            from <= i,
            m == pat@.len(),
            m <= hi - from,
            hi <= cs@.len(),
            1 <= m,
            i <= hi - m + 1,
            s == cs@.subrange(from as int, hi as int),
            forall|j: int| 0 <= j < i - from ==> !occurs_at(s, pat@, j),
        decreases hi - m + 1 - i,
    {
        if range_eq(cs, i, i + m, pat) {
            proof {
                assert(s.subrange(i - from, i - from + m) =~= cs@.subrange(i as int, i + m));
                lemma_find_seq_is(s, pat@, Some(i - from));
            }
            return Some(i);
        }
        assert(!occurs_at(s, pat@, i - from)) by {
            assert(s.subrange(i - from, i - from + m) =~= cs@.subrange(i as int, i + m));
        }
        i = i + 1;
    }
    proof {
        lemma_find_seq_is(s, pat@, None);
    }
    None
}

/// `s` up to its first `c` (all of `s` when there is none).
pub open spec fn take_until(s: Seq<char>, c: char) -> Seq<char> {
    match index_of(s, c) {
        Some(k) => s.take(k),
        None => s,
    }
}

/// The value of attribute `attr` in the tag body `tag`: the text after
/// the first occurrence of `attr` that is followed (after spaces) by `='`
/// or `="`, up to the matching quote.
pub open spec fn get_attr_spec(tag: Seq<char>, attr: Seq<char>) -> Option<Seq<char>>
    decreases tag.len(),
{
    if attr.len() == 0 {
        None
    } else {
        proof {
            lemma_find_seq(tag, attr);
        }
        match find_seq(tag, attr) {
            None => None,
            Some(p) => {
                let r = tag.skip(p + attr.len());
                let t = trim_start_char(r, ' ');
                if t.len() >= 2 && t[0] == '=' && t[1] == '\'' {
                    Some(take_until(t.skip(2), '\''))
                } else if t.len() >= 2 && t[0] == '=' && t[1] == '"' {
                    Some(take_until(t.skip(2), '"'))
                } else {
                    get_attr_spec(r, attr)
                }
            },
        }
    }
}

/// Bounds of the value of attribute `attr` in the tag body `cs[lo..hi]`.
#[verifier::rlimit(40)]
fn get_attribute_range(cs: &[char], lo: usize, hi: usize, attr: &[char]) -> (res: Option<(usize, usize)>)
    requires
        lo <= hi <= cs@.len(),
        attr@.len() > 0,
    ensures
        match res {
            Some((a, b)) => a <= b <= hi && get_attr_spec(cs@.subrange(lo as int, hi as int), attr@)
                == Some(cs@.subrange(a as int, b as int)),
            None => get_attr_spec(cs@.subrange(lo as int, hi as int), attr@) is None,
        },
{
    let mut cur = lo;
    loop
        invariant
            lo <= cur <= hi <= cs@.len(),
            attr@.len() > 0,
            get_attr_spec(cs@.subrange(lo as int, hi as int), attr@) == get_attr_spec(
                cs@.subrange(cur as int, hi as int),
                attr@,
            ),
        decreases hi - cur,
    {
        let ghost tag = cs@.subrange(cur as int, hi as int);
        match find_seq_in(cs, cur, hi, attr) {
            None => {
                return None;
            },
            Some(p) => {
                let after = p + attr.len();
                let ghost r = cs@.subrange(after as int, hi as int);
                assert(tag.skip(p - cur + attr@.len()) =~= r);
                let mut t = after;
                while t < hi && cs[t] == ' '
                    invariant
                        after <= t <= hi <= cs@.len(),
                        forall|j: int| after <= j < t ==> #[trigger] cs@[j] == ' ',
                    decreases hi - t,
                {
                    t = t + 1;
                }
                let ghost tt = cs@.subrange(t as int, hi as int);
                proof {
                    let f = is_char(' ');
                    assert forall|j: int| 0 <= j < t - after implies f(#[trigger] r[j]) by {
                        assert(r[j] == cs@[after + j]);
                    }
                    lemma_prefix_count(r, f, t - after);
                    assert(r.skip(t - after) =~= tt);
                    assert(trim_start_char(r, ' ') == tt);
                }
                if t < hi && hi - t >= 2 && cs[t] == '=' && (cs[t + 1] == '\'' || cs[t + 1] == '"') {
                    let q = cs[t + 1];
                    let start = t + 2;
                    let end = match find_char_from(cs, start, q) {
                        Some(k) => if k < hi {
                            k
                        } else {
                            hi
                        },
                        None => hi,
                    };
                    proof {
                        let u = cs@.subrange(start as int, hi as int);
                        assert(tt.skip(2) =~= u);
                        lemma_index_of(cs@.skip(start as int), q);
                        lemma_index_of(u, q);
                        if let Some(k) = index_of(u, q) {
                            assert(cs@.skip(start as int)[k] == u[k]);
                            assert(u.take(k) =~= cs@.subrange(start as int, start + k));
                            if let Some(k2) = index_of(cs@.skip(start as int), q) {
                                if k2 < k {
                                    assert(u[k2] == cs@.skip(start as int)[k2]);
                                }
                            }
                        } else {
                            if end < hi {
                                assert(u[end - start] == cs@[end as int]);
                            }
                        }
                        assert(take_until(u, q) == cs@.subrange(start as int, end as int));
                        assert(get_attr_spec(tag, attr@) == Some(take_until(tt.skip(2), q)));
                    }
                    return Some((start, end));
                }
                assert(get_attr_spec(tag, attr@) == get_attr_spec(r, attr@));
                cur = after;
            },
        }
    }
}


/// Value of a hexadecimal digit, or -1.
pub open spec fn hex_digit_value(c: char) -> int {
    if '0' <= c && c <= '9' {
        c as int - 48
    } else if 'a' <= c && c <= 'f' {
        c as int - 87
    } else if 'A' <= c && c <= 'F' {
        c as int - 55
    } else {
        -1
    }
}

/// The value of a string of hexadecimal digits.
pub open spec fn hex_value(s: Seq<char>) -> nat
    decreases s.len(),
{
    if s.len() == 0 {
        0
    } else {
        hex_value(s.drop_last()) * 16 + hex_digit_value(s.last()) as nat
    }
}

/// `u32::from_str_radix(t, 16)`: an optional `+`, then one or more
/// hexadecimal digits.
pub open spec fn radix16_spec(t: Seq<char>) -> Option<nat> {
    let d = digits_part(t);
    if d.len() > 0 && all_hex(d) {
        Some(hex_value(d))
    } else {
        None
    }
}

/// `t` without a leading `+`.
pub open spec fn digits_part(t: Seq<char>) -> Seq<char> {
    if t.len() > 0 && t[0] == '+' {
        t.drop_first()
    } else {
        t
    }
}

pub open spec fn all_hex(d: Seq<char>) -> bool {
    forall|i: int| 0 <= i < d.len() ==> hex_digit_value(#[trigger] d[i]) >= 0
}

/// A `#rrggbb` colour (surrounding white space and any number of leading
/// `#` allowed) as opaque RGBA `0xRRGGBBFF`.
pub open spec fn parse_color_spec(s: Seq<char>) -> Option<u32> {
    let t = trim_start_char(trim_spec(s), '#');
    if byte_len(t) == 6 {
        match radix16_spec(t) {
            Some(v) => Some((v * 256 + 255) as u32),
            None => None,
        }
    } else {
        None
    }
}

proof fn lemma_hex_value_bound(s: Seq<char>)
    requires
        forall|i: int| 0 <= i < s.len() ==> hex_digit_value(#[trigger] s[i]) >= 0,
    ensures
        hex_value(s) < crate::text::pow16(s.len()),
    decreases s.len(),
{
    if s.len() > 0 {
        lemma_hex_value_bound(s.drop_last());
        assert(hex_digit_value(s.last()) < 16);
        let p = crate::text::pow16((s.len() - 1) as nat);
        let h = hex_value(s.drop_last());
        assert(h * 16 + 15 < p * 16) by (nonlinear_arith)
            requires h < p;
    }
}

/// Parses the colour `cs[lo..hi]`.
fn parse_color_range(cs: &[char], lo: usize, hi: usize) -> (res: Option<u32>)
    requires
        lo <= hi <= cs@.len(),
    ensures
        res == parse_color_spec(cs@.subrange(lo as int, hi as int)),
{
    let (a0, b) = trim_bounds(cs, lo, hi);
    let mut a = a0;
    while a < b && cs[a] == '#'
        invariant
            a0 <= a <= b <= cs@.len(),
            forall|j: int| a0 <= j < a ==> #[trigger] cs@[j] == '#',
        decreases b - a,
    {
        a = a + 1;
    }
    let ghost t = cs@.subrange(a as int, b as int);
    proof {
        let s1 = cs@.subrange(a0 as int, b as int);
        let f = is_char('#');
        assert forall|j: int| 0 <= j < a - a0 implies f(#[trigger] s1[j]) by {
            assert(s1[j] == cs@[a0 + j]);
        }
        lemma_prefix_count(s1, f, a - a0);
        assert(s1.skip(a - a0) =~= t);
    }
    assert(trim_start_char(trim_spec(cs@.subrange(lo as int, hi as int)), '#') == t);
    // the byte length must be exactly six
    let mut j = a;
    let mut w: usize = 0;
    while j < b && w <= 6
        invariant
            a <= j <= b <= cs@.len(),
            t == cs@.subrange(a as int, b as int),
            w == byte_len(t.take(j - a)),
        decreases b - j,
    {
        let cw = char_width(cs[j]);
        proof {
            assert(t.take(j + 1 - a) =~= t.take(j - a) + seq![cs@[j as int]]);
            lemma_byte_len_concat(t.take(j - a), seq![cs@[j as int]]);
            lemma_byte_len_single(cs@[j as int]);
        }
        w = w + cw;
        j = j + 1;
    }
    if j < b || w != 6 {
        proof {
            assert(t.take(t.len() as int) =~= t);
            if j < b {
                lemma_byte_len_prefix(t, j - a, t.len() as int);
            }
        }
        return None;
    }
    assert(t.take(j - a) =~= t);
    let d0 = if a < b && cs[a] == '+' {
        a + 1
    } else {
        a
    };
    let ghost d = cs@.subrange(d0 as int, b as int);
    assert(d =~= digits_part(t));
    if d0 == b {
        assert(d.len() == 0);
        assert(radix16_spec(t).is_none());
        return None;
    }
    // at most six characters remain
    proof {
        crate::text::lemma_byte_len_ge_len(t);
    }
    let mut v: u32 = 0;
    let mut k = d0;
    while k < b
        invariant
            d0 <= k <= b <= cs@.len(),
            b - d0 <= 6,
            d == cs@.subrange(d0 as int, b as int),
            lo <= hi <= cs@.len(),
            trim_start_char(trim_spec(cs@.subrange(lo as int, hi as int)), '#') == t,
            byte_len(t) == 6,
            d == digits_part(t),
            forall|i: int| 0 <= i < k - d0 ==> hex_digit_value(#[trigger] d[i]) >= 0,
            v == hex_value(d.take(k - d0)),
        decreases b - k,
    {
        let c = cs[k];
        let dv: u32 = if '0' <= c && c <= '9' {
            (c as u32) - 48
        } else if 'a' <= c && c <= 'f' {
            (c as u32) - 87
        } else if 'A' <= c && c <= 'F' {
            (c as u32) - 55
        } else {
            assert(hex_digit_value(d[k - d0]) < 0);
            assert(!all_hex(d));
            return None;
        };
        proof {
            assert(d.take(k - d0 + 1).drop_last() =~= d.take(k - d0));
            assert(forall|i: int| 0 <= i < k - d0 ==> hex_digit_value(#[trigger] d.take(k - d0)[i]) >= 0);
            lemma_hex_value_bound(d.take(k - d0));
            crate::text::lemma_pow16_small((k - d0) as nat);
        }
        v = v * 16 + dv;
        k = k + 1;
    }
    assert(d.take(b - d0) =~= d);
    proof {
        lemma_hex_value_bound(d);
        crate::text::lemma_pow16_small(d.len());
    }
    Some(v * 256 + 255)
}


/// The theme values that styling reads: the default font family and the
/// two text colours (as RGBA `0xRRGGBBAA`).
pub struct PangoTheme {
    pub font_family: String,
    pub primary_text: u32,
    pub secondary_text: u32,
}

/// A styled run of the rendered text; `len` counts bytes.
pub struct TextRun {
    pub len: usize,
    pub color: u32,
    pub family: String,
    pub bold: bool,
    pub italic: bool,
}

/// How a run looks.
pub struct RunStyle {
    pub bold: bool,
    pub italic: bool,
    pub family: Seq<char>,
    pub color: u32,
}

/// A run as a mathematical value.
pub struct RunView {
    pub len: nat,
    pub style: RunStyle,
}

impl View for TextRun {
    type V = RunView;

    open spec fn view(&self) -> RunView {
        RunView {
            len: self.len as nat,
            style: RunStyle {
                bold: self.bold,
                italic: self.italic,
                family: self.family@,
                color: self.color,
            },
        }
    }
}

/// The attributes an open `<span>` sets.
pub struct SpanState {
    family: Option<String>,
    color: Option<u32>,
}

/// A span's attributes as a mathematical value.
pub struct SpanView {
    pub family: Option<Seq<char>>,
    pub color: Option<u32>,
}

impl View for SpanState {
    type V = SpanView;

    closed spec fn view(&self) -> SpanView {
        SpanView {
            family: match self.family {
                Some(f) => Some(f@),
                None => None,
            },
            color: self.color,
        }
    }
}

/// The attributes of the span whose tag body is `tag`.
pub open spec fn span_spec(tag: Seq<char>) -> SpanView {
    SpanView {
        family: get_attr_spec(tag, font_desc_chars()),
        color: match get_attr_spec(tag, color_chars()) {
            Some(c) => parse_color_spec(c),
            None => None,
        },
    }
}

pub open spec fn font_desc_chars() -> Seq<char> {
    seq!['f', 'o', 'n', 't', '_', 'd', 'e', 's', 'c']
}

pub open spec fn color_chars() -> Seq<char> {
    seq!['c', 'o', 'l', 'o', 'r']
}

impl SpanState {
    /// The attributes of the span whose tag body is `cs[lo..hi]`.
    fn from_range(cs: &[char], lo: usize, hi: usize) -> (res: SpanState)
        requires
            lo <= hi <= cs@.len(),
        ensures
            res@ == span_spec(cs@.subrange(lo as int, hi as int)),
    {
        let fd = ['f', 'o', 'n', 't', '_', 'd', 'e', 's', 'c'];
        let co = ['c', 'o', 'l', 'o', 'r'];
        assert(fd@ =~= font_desc_chars());
        assert(co@ =~= color_chars());
        let family = match get_attribute_range(cs, lo, hi, &fd) {
            Some((a, b)) => Some(string_of(&cs[a..b])),
            None => None,
        };
        let color = match get_attribute_range(cs, lo, hi, &co) {
            Some((a, b)) => parse_color_range(cs, a, b),
            None => None,
        };
        SpanState { family, color }
    }

    /// The attributes of the span whose tag body is `tag`.
    pub fn new(tag: &str) -> (res: SpanState)
        ensures
            res@ == span_spec(tag@),
    {
        let cs = chars_of(tag);
        assert(cs@.subrange(0, cs@.len() as int) =~= cs@);
        SpanState::from_range(cs.as_slice(), 0, cs.len())
    }

    /// The font family the span sets.
    pub fn family(&self) -> (res: Option<&String>)
        ensures
            match res {
                Some(f) => self@.family == Some(f@),
                None => self@.family is None,
            },
    {
        self.family.as_ref()
    }

    /// The colour the span sets.
    pub fn color(&self) -> (res: Option<u32>)
        ensures
            res == self@.color,
    {
        self.color
    }
}

/// The state of the markup while it is read: open `<b>` and `<i>` counts
/// and the stack of open spans.
pub struct PState {
    pub bold: nat,
    pub italic: nat,
    pub spans: Seq<SpanView>,
}

/// The style text gets in state `st`: the innermost span decides family
/// and colour, else the theme (bold text uses the primary colour).
pub open spec fn style_of(st: PState, theme: PangoTheme) -> RunStyle {
    let top_family = if st.spans.len() > 0 {
        st.spans.last().family
    } else {
        None
    };
    let top_color = if st.spans.len() > 0 {
        st.spans.last().color
    } else {
        None
    };
    RunStyle {
        bold: st.bold > 0,
        italic: st.italic > 0,
        family: match top_family {
            Some(f) => f,
            None => theme.font_family@,
        },
        color: match top_color {
            Some(c) => c,
            None => if st.bold > 0 {
                theme.primary_text
            } else {
                theme.secondary_text
            },
        },
    }
}

/// What one token emits (text pieces with their style) and the state after it.
pub open spec fn step(st: PState, t: Token, theme: PangoTheme) -> (Seq<(Seq<char>, RunStyle)>, PState) {
    match t {
        Token::Text(x) => (seq![(unescape_spec(x), style_of(st, theme))], st),
        Token::Tag(inner, whole) => {
            let i = trim_spec(inner);
            let k = classify_spec(i);
            if k == TagKind::BoldOpen {
                (Seq::empty(), PState { bold: st.bold + 1, italic: st.italic, spans: st.spans })
            } else if k == TagKind::BoldClose {
                (
                    Seq::empty(),
                    PState {
                        bold: if st.bold > 0 {
                            (st.bold - 1) as nat
                        } else {
                            0
                        },
                        italic: st.italic,
                        spans: st.spans,
                    },
                )
            } else if k == TagKind::ItalicOpen {
                (Seq::empty(), PState { bold: st.bold, italic: st.italic + 1, spans: st.spans })
            } else if k == TagKind::ItalicClose {
                (
                    Seq::empty(),
                    PState {
                        bold: st.bold,
                        italic: if st.italic > 0 {
                            (st.italic - 1) as nat
                        } else {
                            0
                        },
                        spans: st.spans,
                    },
                )
            } else if k == TagKind::Br {
                (seq![(seq!['\n', '\n'], style_of(st, theme))], st)
            } else if k == TagKind::SpanOpen {
                (
                    Seq::empty(),
                    PState { bold: st.bold, italic: st.italic, spans: st.spans.push(span_spec(i)) },
                )
            } else if k == TagKind::SpanClose {
                (
                    Seq::empty(),
                    PState {
                        bold: st.bold,
                        italic: st.italic,
                        spans: if st.spans.len() > 0 {
                            st.spans.drop_last()
                        } else {
                            st.spans
                        },
                    },
                )
            } else {
                (seq![(unescape_spec(whole), style_of(st, theme))], st)
            }
        },
    }
}

/// The styled pieces that the tokens `ts` emit from state `st` on.
pub open spec fn pieces(ts: Seq<Token>, st: PState, theme: PangoTheme) -> Seq<(Seq<char>, RunStyle)>
    decreases ts.len(),
{
    if ts.len() == 0 {
        Seq::empty()
    } else {
        let (p, st2) = step(st, ts[0], theme);
        p + pieces(ts.drop_first(), st2, theme)
    }
}

/// Adds a piece to a run list: empty text adds nothing, text styled like
/// the last run extends it, other text starts a new run.
pub open spec fn push_run_spec(runs: Seq<RunView>, p: (Seq<char>, RunStyle)) -> Seq<RunView> {
    if p.0.len() == 0 {
        runs
    } else if runs.len() > 0 && runs.last().style == p.1 {
        runs.update(
            runs.len() - 1,
            RunView { len: runs.last().len + byte_len(p.0), style: p.1 },
        )
    } else {
        runs.push(RunView { len: byte_len(p.0), style: p.1 })
    }
}

pub open spec fn runs_of(ps: Seq<(Seq<char>, RunStyle)>) -> Seq<RunView>
    decreases ps.len(),
{
    if ps.len() == 0 {
        Seq::empty()
    } else {
        push_run_spec(runs_of(ps.drop_last()), ps.last())
    }
}

pub open spec fn text_of(ps: Seq<(Seq<char>, RunStyle)>) -> Seq<char>
    decreases ps.len(),
{
    if ps.len() == 0 {
        Seq::empty()
    } else {
        text_of(ps.drop_last()) + ps.last().0
    }
}

pub open spec fn initial_state() -> PState {
    PState { bold: 0, italic: 0, spans: Seq::empty() }
}

/// The styled pieces of `content`.
pub open spec fn pango_pieces(content: Seq<char>, theme: PangoTheme) -> Seq<(Seq<char>, RunStyle)> {
    pieces(tokens(content), initial_state(), theme)
}

/// The text that `content` renders to.
pub open spec fn pango_text(content: Seq<char>, theme: PangoTheme) -> Seq<char> {
    text_of(pango_pieces(content, theme))
}

/// The runs that `content` renders to.
pub open spec fn pango_runs(content: Seq<char>, theme: PangoTheme) -> Seq<RunView> {
    runs_of(pango_pieces(content, theme))
}

/// Total length of a run list.
pub open spec fn sum_lens(runs: Seq<RunView>) -> nat
    decreases runs.len(),
{
    if runs.len() == 0 {
        0
    } else {
        sum_lens(runs.drop_last()) + runs.last().len
    }
}

/// No run is empty and no two neighbouring runs look the same.
pub open spec fn runs_well_formed(runs: Seq<RunView>) -> bool {
    &&& forall|i: int| 0 <= i < runs.len() ==> (#[trigger] runs[i]).len > 0
    &&& forall|i: int| 0 <= i < runs.len() - 1 ==> (#[trigger] runs[i]).style != runs[i + 1].style
}

pub open spec fn runs_view(v: Seq<TextRun>) -> Seq<RunView> {
    v.map_values(|r: TextRun| r@)
}


/// Run lengths add up to the text length, and the runs are well formed.
pub proof fn lemma_runs_of(ps: Seq<(Seq<char>, RunStyle)>)
    ensures
        sum_lens(runs_of(ps)) == byte_len(text_of(ps)),
        runs_well_formed(runs_of(ps)),
    decreases ps.len(),
{
    if ps.len() == 0 {
        assert(encode_utf8(Seq::<char>::empty()) =~= Seq::<u8>::empty());
    } else {
        let r = runs_of(ps.drop_last());
        let p = ps.last();
        lemma_runs_of(ps.drop_last());
        lemma_byte_len_concat(text_of(ps.drop_last()), p.0);
        if p.0.len() == 0 {
            assert(encode_utf8(p.0) =~= Seq::<u8>::empty());
        } else {
            crate::text::lemma_byte_len_ge_len(p.0);
            let r2 = push_run_spec(r, p);
            if r.len() > 0 && r.last().style == p.1 {
                assert(r2.drop_last() =~= r.drop_last());
            } else {
                assert(r2.drop_last() =~= r);
            }
        }
    }
}

/// Replacing entities never lengthens text.
pub proof fn lemma_unescape_shrinks(s: Seq<char>)
    ensures
        byte_len(unescape_spec(s)) <= byte_len(s),
    decreases s.len(),
{
    if s.len() == 0 {
    } else if s[0] != '&' {
        lemma_unescape_shrinks(s.drop_first());
        assert(s =~= seq![s[0]] + s.drop_first());
        lemma_byte_len_concat(seq![s[0]], s.drop_first());
        lemma_byte_len_concat(seq![s[0]], unescape_spec(s.drop_first()));
    } else {
        lemma_index_of(s, ';');
        let e = entity_end(s);
        let tok = s.take(e + 1);
        lemma_unescape_shrinks(s.skip(e + 1));
        assert(s =~= tok + s.skip(e + 1));
        lemma_byte_len_concat(tok, s.skip(e + 1));
        lemma_byte_len_concat(entity_text(tok), unescape_spec(s.skip(e + 1)));
        crate::text::lemma_byte_len_ge_len(tok);
        if entity_text(tok) != tok {
            let c = entity_text(tok)[0];
            assert(entity_text(tok) =~= seq![c]);
            lemma_byte_len_single(c);
            assert(tok.len() >= 4);
        }
    }
}

/// Trimming never lengthens text.
proof fn lemma_trim_len(s: Seq<char>)
    ensures
        trim_spec(s).len() <= s.len(),
{
    lemma_trim_start_len(s);
    lemma_trim_end_len(crate::text::trim_start_spec(s));
}

proof fn lemma_trim_start_len(s: Seq<char>)
    ensures
        crate::text::trim_start_spec(s).len() <= s.len(),
    decreases s.len(),
{
    if s.len() > 0 && crate::text::is_white_space(s[0]) {
        lemma_trim_start_len(s.drop_first());
    }
}

proof fn lemma_trim_end_len(s: Seq<char>)
    ensures
        crate::text::trim_end_spec(s).len() <= s.len(),
    decreases s.len(),
{
    if s.len() > 0 && crate::text::is_white_space(s.last()) {
        lemma_trim_end_len(s.drop_last());
    }
}

proof fn lemma_trim_end_char_len(s: Seq<char>, c: char)
    ensures
        trim_end_char(s, c).len() <= s.len(),
    decreases s.len(),
{
    if s.len() > 0 && s.last() == c {
        lemma_trim_end_char_len(s.drop_last(), c);
    }
}

proof fn lemma_prefix_count_le(s: Seq<char>, f: spec_fn(char) -> bool)
    ensures
        prefix_count(s, f) <= s.len(),
    decreases s.len(),
{
    if s.len() > 0 && f(s[0]) {
        lemma_prefix_count_le(s.drop_first(), f);
    }
}

/// A tag name is never longer than the tag body.
proof fn lemma_tag_name_len(inner: Seq<char>)
    ensures
        tag_name(inner).len() <= inner.len(),
{
    let a = trim_spec(inner);
    lemma_trim_len(inner);
    let b = trim_end_char(a, '/');
    lemma_trim_end_char_len(a, '/');
    let c = trim_spec(b);
    lemma_trim_len(b);
    let f1 = |x: char| is_ascii_ws(x);
    let f2 = |x: char| !is_ascii_ws(x);
    lemma_prefix_count_le(c, f1);
    let t = c.skip(prefix_count(c, f1) as int);
    lemma_prefix_count_le(t, f2);
}


pub open spec fn spans_view(v: Seq<SpanState>) -> Seq<SpanView> {
    v.map_values(|s: SpanState| s@)
}

/// The innermost open span matches the state's span stack.
pub open spec fn top_matches(top: Option<&SpanState>, st: PState) -> bool {
    match top {
        Some(sp) => st.spans.len() > 0 && sp@ == st.spans.last(),
        None => st.spans.len() == 0,
    }
}

/// Appends `text` to `final_text` and records its style in `runs`.
fn push_run(
    text: &[char],
    bold_depth: usize,
    italic_depth: usize,
    top: Option<&SpanState>,
    theme: &PangoTheme,
    final_text: &mut Vec<char>,
    runs: &mut Vec<TextRun>,
    Ghost(st): Ghost<PState>,
)
    requires
        st.bold == bold_depth,
        st.italic == italic_depth,
        top_matches(top, st),
        byte_len(old(final_text)@) + byte_len(text@) <= usize::MAX,
        sum_lens(runs_view(old(runs)@)) == byte_len(old(final_text)@),
    ensures
        final(final_text)@ == old(final_text)@ + text@,
        runs_view(final(runs)@) == push_run_spec(
            runs_view(old(runs)@),
            (text@, style_of(st, *theme)),
        ),
{
    let ghost style = style_of(st, *theme);
    let ghost old_text = final_text@;
    let mut i: usize = 0;
    let mut len: usize = 0;
    proof {
        lemma_byte_len_concat(old_text, text@);
        crate::text::lemma_byte_len_ge_len(text@);
    }
    while i < text.len()
        invariant
            i <= text@.len(),
            len == byte_len(text@.take(i as int)),
            byte_len(text@) <= usize::MAX,
            final_text@ == old_text + text@.take(i as int),
        decreases text@.len() - i,
    {
        let c = text[i];
        proof {
            assert(text@.take(i + 1) =~= text@.take(i as int) + seq![c]);
            lemma_byte_len_concat(text@.take(i as int), seq![c]);
            lemma_byte_len_single(c);
            lemma_byte_len_prefix(text@, i + 1, text@.len() as int);
            assert(text@.take(text@.len() as int) =~= text@);
        }
        len = len + char_width(c);
        final_text.push(c);
        i = i + 1;
    }
    assert(text@.take(i as int) =~= text@);
    if text.len() == 0 {
        return;
    }
    let bold = bold_depth > 0;
    let italic = italic_depth > 0;
    let default_color = if bold {
        theme.primary_text
    } else {
        theme.secondary_text
    };
    let color = match top {
        Some(sp) => match sp.color() {
            Some(c) => c,
            None => default_color,
        },
        None => default_color,
    };
    let family: &String = match top {
        Some(sp) => match sp.family() {
            Some(f) => f,
            None => &theme.font_family,
        },
        None => &theme.font_family,
    };
    assert(family@ == style.family);
    assert(color == style.color);
    let n = runs.len();
    if n > 0 {
        let last = &runs[n - 1];
        if last.bold == bold && last.italic == italic && last.family == *family && last.color
            == color {
            proof {
                let rv = runs_view(runs@);
                assert(rv.drop_last() =~= runs_view(runs@.drop_last()));
                assert(rv.last() == last@);
                assert(sum_lens(rv) == sum_lens(rv.drop_last()) + rv.last().len);
            }
            let merged = TextRun {
                len: last.len + len,
                color: last.color,
                family: last.family.clone(),
                bold: last.bold,
                italic: last.italic,
            };
            let ghost before = runs@;
            runs.set(n - 1, merged);
            assert(runs_view(runs@) =~= runs_view(before).update(n - 1, merged@));
            return;
        }
    }
    let fresh = TextRun { len, color, family: family.clone(), bold, italic };
    let ghost before = runs@;
    runs.push(fresh);
    assert(runs_view(runs@) =~= runs_view(before).push(fresh@));
}


/// The effect of the tag `cs[pos..=te]` on the depths, the span stack and
/// the output.
fn handle_tag(
    cs: &[char],
    pos: usize,
    te: usize,
    bold_depth: &mut usize,
    italic_depth: &mut usize,
    span_stack: &mut Vec<SpanState>,
    theme: &PangoTheme,
    final_text: &mut Vec<char>,
    runs: &mut Vec<TextRun>,
    Ghost(st): Ghost<PState>,
)
    requires
        pos < te < cs@.len(),
        st.bold == *old(bold_depth),
        st.italic == *old(italic_depth),
        st.spans == spans_view(old(span_stack)@),
        *old(bold_depth) <= pos,
        *old(italic_depth) <= pos,
        byte_len(old(final_text)@) + byte_len(cs@.subrange(pos as int, te + 1)) <= usize::MAX,
        sum_lens(runs_view(old(runs)@)) == byte_len(old(final_text)@),
    ensures
        ({
            let tok = Token::Tag(cs@.subrange(pos + 1, te as int), cs@.subrange(pos as int, te + 1));
            let (em, st2) = step(st, tok, *theme);
            &&& st2.bold == *final(bold_depth)
            &&& st2.italic == *final(italic_depth)
            &&& st2.spans == spans_view(final(span_stack)@)
            &&& *final(bold_depth) <= te + 1
            &&& *final(italic_depth) <= te + 1
            &&& em.len() <= 1
            &&& em.len() == 0 ==> final(final_text)@ == old(final_text)@ && final(runs)@ == old(runs)@
            &&& em.len() == 1 ==> final(final_text)@ == old(final_text)@ + em[0].0 && runs_view(final(runs)@)
                == push_run_spec(runs_view(old(runs)@), em[0])
            &&& em.len() == 1 ==> byte_len(em[0].0) <= byte_len(cs@.subrange(pos as int, te + 1))
        }),
{
    let ghost tok = Token::Tag(cs@.subrange(pos + 1, te as int), cs@.subrange(pos as int, te + 1));
    let n = cs.len();
    assert(te < n);
    let top = if span_stack.len() > 0 {
        Some(&span_stack[span_stack.len() - 1])
    } else {
        None
    };
    assert(top_matches(top, st));
    let (a, b) = trim_bounds(cs, pos + 1, te);
    let kind = classify_range(cs, a, b);
    match kind {
        TagKind::BoldOpen => {
            *bold_depth = *bold_depth + 1;
        },
        TagKind::BoldClose => {
            *bold_depth = if *bold_depth > 0 {
                *bold_depth - 1
            } else {
                0
            };
        },
        TagKind::ItalicOpen => {
            *italic_depth = *italic_depth + 1;
        },
        TagKind::ItalicClose => {
            *italic_depth = if *italic_depth > 0 {
                *italic_depth - 1
            } else {
                0
            };
        },
        TagKind::Br => {
            let nl = ['\n', '\n'];
            proof {
                lemma_tag_name_len(trim_spec(cs@.subrange(pos + 1, te as int)));
                lemma_trim_len(cs@.subrange(pos + 1, te as int));
                crate::text::lemma_byte_len_ge_len(cs@.subrange(pos as int, te + 1));
                assert(nl@ =~= seq!['\n', '\n']);
                assert(nl@ =~= seq!['\n'] + seq!['\n']);
                lemma_byte_len_concat(seq!['\n'], seq!['\n']);
                lemma_byte_len_single('\n');
            }
            push_run(&nl, *bold_depth, *italic_depth, top, theme, final_text, runs, Ghost(st));
        },
        TagKind::SpanOpen => {
            let sp = SpanState::from_range(cs, a, b);
            let ghost before = span_stack@;
            span_stack.push(sp);
            assert(spans_view(span_stack@) =~= spans_view(before).push(sp@));
        },
        TagKind::SpanClose => {
            let ghost before = span_stack@;
            span_stack.pop();
            assert(spans_view(span_stack@) =~= (if before.len() > 0 {
                spans_view(before).drop_last()
            } else {
                spans_view(before)
            }));
        },
        TagKind::Unknown => {
            let mut scratch: Vec<char> = Vec::new();
            unescape_into(cs, pos, te + 1, &mut scratch);
            proof {
                lemma_unescape_shrinks(cs@.subrange(pos as int, te + 1));
            }
            push_run(
                scratch.as_slice(),
                *bold_depth,
                *italic_depth,
                top,
                theme,
                final_text,
                runs,
                Ghost(st),
            );
        },
    }
}

/// Emits the unescaped text `cs[lo..hi]` in state `st`.
fn emit_text(
    cs: &[char],
    lo: usize,
    hi: usize,
    bold_depth: usize,
    italic_depth: usize,
    span_stack: &Vec<SpanState>,
    theme: &PangoTheme,
    final_text: &mut Vec<char>,
    runs: &mut Vec<TextRun>,
    Ghost(st): Ghost<PState>,
)
    requires
        lo <= hi <= cs@.len(),
        st.bold == bold_depth,
        st.italic == italic_depth,
        st.spans == spans_view(span_stack@),
        byte_len(old(final_text)@) + byte_len(cs@.subrange(lo as int, hi as int)) <= usize::MAX,
        sum_lens(runs_view(old(runs)@)) == byte_len(old(final_text)@),
    ensures
        ({
            let x = unescape_spec(cs@.subrange(lo as int, hi as int));
            &&& final(final_text)@ == old(final_text)@ + x
            &&& runs_view(final(runs)@) == push_run_spec(runs_view(old(runs)@), (x, style_of(st, *theme)))
            &&& byte_len(x) <= byte_len(cs@.subrange(lo as int, hi as int))
        }),
{
    let top = if span_stack.len() > 0 {
        Some(&span_stack[span_stack.len() - 1])
    } else {
        None
    };
    assert(top_matches(top, st));
    let mut scratch: Vec<char> = Vec::new();
    unescape_into(cs, lo, hi, &mut scratch);
    proof {
        lemma_unescape_shrinks(cs@.subrange(lo as int, hi as int));
    }
    push_run(
        scratch.as_slice(),
        bold_depth,
        italic_depth,
        top,
        theme,
        final_text,
        runs,
        Ghost(st),
    );
}

/// Maintains the loop invariant of `parse_pango` across one token.
proof fn lemma_advance(
    cs: Seq<char>,
    pos: int,
    pos2: int,
    done: Seq<(Seq<char>, RunStyle)>,
    em: Seq<(Seq<char>, RunStyle)>,
    st: PState,
    st2: PState,
    theme: PangoTheme,
)
    requires
        0 <= pos <= pos2 <= cs.len(),
        em.len() <= 1,
        pieces(tokens(cs.skip(pos)), st, theme) == em + pieces(tokens(cs.skip(pos2)), st2, theme),
        done + pieces(tokens(cs.skip(pos)), st, theme) == pango_pieces(cs, theme),
        byte_len(text_of(done)) <= byte_len(cs.take(pos)),
        em.len() == 1 ==> byte_len(em[0].0) <= byte_len(cs.subrange(pos, pos2)),
    ensures
        (done + em) + pieces(tokens(cs.skip(pos2)), st2, theme) == pango_pieces(cs, theme),
        em.len() == 0 ==> text_of(done + em) == text_of(done) && runs_of(done + em) == runs_of(done),
        em.len() == 1 ==> text_of(done + em) == text_of(done) + em[0].0 && runs_of(done + em)
            == push_run_spec(runs_of(done), em[0]),
        byte_len(text_of(done + em)) <= byte_len(cs.take(pos2)),
{
    assert((done + em) + pieces(tokens(cs.skip(pos2)), st2, theme) =~= done + (em + pieces(
        tokens(cs.skip(pos2)),
        st2,
        theme,
    )));
    assert(cs.take(pos2) =~= cs.take(pos) + cs.subrange(pos, pos2));
    lemma_byte_len_concat(cs.take(pos), cs.subrange(pos, pos2));
    if em.len() == 0 {
        assert(done + em =~= done);
    } else {
        assert(done + em =~= done.push(em[0]));
        lemma_pieces_push(done, em[0]);
        lemma_byte_len_concat(text_of(done), em[0].0);
    }
}

proof fn lemma_pieces_push(done: Seq<(Seq<char>, RunStyle)>, x: (Seq<char>, RunStyle))
    ensures
        text_of(done.push(x)) == text_of(done) + x.0,
        runs_of(done.push(x)) == push_run_spec(runs_of(done), x),
{
    assert(done.push(x).drop_last() =~= done);
}

/// Unfolds `pieces` on a token list that starts with `t`.
proof fn lemma_pieces_cons(t: Token, rest: Seq<Token>, st: PState, theme: PangoTheme)
    ensures
        pieces(seq![t] + rest, st, theme) == step(st, t, theme).0 + pieces(
            rest,
            step(st, t, theme).1,
            theme,
        ),
{
    assert((seq![t] + rest).drop_first() =~= rest);
}

/// Parses `content` into its display text and the styled runs that cover
/// it: `<b>`/`<i>` nest, `<span font_desc='..' color='#rrggbb'>` sets the
/// family and colour until its `</span>`, `<br>` inserts a blank line,
/// entities are replaced and unknown tags are kept as text. Runs that look
/// the same are merged.
#[verifier::rlimit(50)]
pub fn parse_pango(content: &str, theme: &PangoTheme) -> (res: (String, Vec<TextRun>))
    ensures
        res.0@ == pango_text(content@, *theme),
        runs_view(res.1@) == pango_runs(content@, *theme),
        sum_lens(runs_view(res.1@)) == byte_len(res.0@),
        runs_well_formed(runs_view(res.1@)),
{
    let bytes = content.as_bytes();
    let nbytes = bytes.len();
    assert(byte_len(content@) == bytes@.len());
    assert(bytes@.len() == nbytes);
    let chars = chars_of(content);
    let cs = chars.as_slice();
    let n = cs.len();
    let mut final_text: Vec<char> = Vec::new();
    let mut runs: Vec<TextRun> = Vec::new();
    let mut bold_depth: usize = 0;
    let mut italic_depth: usize = 0;
    let mut span_stack: Vec<SpanState> = Vec::new();
    let mut pos: usize = 0;
    let ghost mut st = initial_state();
    let ghost mut done: Seq<(Seq<char>, RunStyle)> = Seq::empty();
    assert(cs@.skip(0) =~= cs@);
    assert(cs@ == content@);
    assert(nbytes <= usize::MAX);
    assert(byte_len(cs@) <= usize::MAX);
    assert(spans_view(span_stack@) =~= Seq::<SpanView>::empty());
    assert(runs_view(runs@) =~= Seq::<RunView>::empty());
    assert(cs@.take(0) =~= Seq::<char>::empty());
    assert(done + pieces(tokens(cs@.skip(0)), st, *theme) =~= pango_pieces(cs@, *theme));
    while pos < n
        invariant
            n == cs@.len(),
            cs@ == content@,
            pos <= n,
            byte_len(cs@) <= usize::MAX,
            st.bold == bold_depth,
            st.italic == italic_depth,
            st.spans == spans_view(span_stack@),
            bold_depth <= pos,
            italic_depth <= pos,
            final_text@ == text_of(done),
            runs_view(runs@) == runs_of(done),
            done + pieces(tokens(cs@.skip(pos as int)), st, *theme) == pango_pieces(cs@, *theme),
            byte_len(final_text@) <= byte_len(cs@.take(pos as int)),
        decreases n - pos,
    {
        let ghost rest = cs@.skip(pos as int);
        proof {
            lemma_runs_of(done);
        }
        // the end of the text that starts here, and the end of the tag after it
        let (text_end, tag_end) = match find_char_from(cs, pos, '<') {
            Some(ts) => if ts > pos {
                (ts, None)
            } else {
                match find_char_from(cs, pos, '>') {
                    Some(te) => (pos, Some(te)),
                    None => (n, None),
                }
            },
            None => (n, None),
        };
        proof {
            lemma_index_of(rest, '<');
            lemma_index_of(rest, '>');
            lemma_byte_len_prefix(cs@, text_end as int, n as int);
            assert(cs@.take(n as int) =~= cs@);
            assert(cs@.take(text_end as int) =~= cs@.take(pos as int) + cs@.subrange(pos as int, text_end as int));
            lemma_byte_len_concat(cs@.take(pos as int), cs@.subrange(pos as int, text_end as int));
        }
        if text_end > pos {
            let ghost x = (unescape_spec(cs@.subrange(pos as int, text_end as int)), style_of(st, *theme));
            proof {
                if text_end < n {
                    lemma_tokens_text(cs@, pos as int, text_end as int);
                } else {
                    assert(cs@.subrange(pos as int, n as int) =~= rest);
                    assert(tokens(rest) =~= seq![Token::Text(rest)] + tokens(cs@.skip(n as int)));
                }
                lemma_pieces_cons(
                    Token::Text(cs@.subrange(pos as int, text_end as int)),
                    tokens(cs@.skip(text_end as int)),
                    st,
                    *theme,
                );
            }
            emit_text(
                cs,
                pos,
                text_end,
                bold_depth,
                italic_depth,
                &span_stack,
                theme,
                &mut final_text,
                &mut runs,
                Ghost(st),
            );
            proof {
                assert(seq![x] =~= step(st, Token::Text(cs@.subrange(pos as int, text_end as int)), *theme).0);
                lemma_advance(cs@, pos as int, text_end as int, done, seq![x], st, st, *theme);
                done = done + seq![x];
            }
            pos = text_end;
        } else {
            let te = match tag_end {
                Some(te) => te,
                None => pos,
            };
            assert(te > pos);
            proof {
                lemma_tokens_tag(cs@, pos as int, te as int);
                assert(cs@.take(te + 1) =~= cs@.take(pos as int) + cs@.subrange(pos as int, te + 1));
                lemma_byte_len_concat(cs@.take(pos as int), cs@.subrange(pos as int, te + 1));
                lemma_byte_len_prefix(cs@, te + 1, n as int);
            }
            let ghost tok = Token::Tag(
                cs@.subrange(pos + 1, te as int),
                cs@.subrange(pos as int, te + 1),
            );
            proof {
                lemma_pieces_cons(tok, tokens(cs@.skip(te + 1)), st, *theme);
            }
            let ghost (emitted, st2) = step(st, tok, *theme);
            handle_tag(
                cs,
                pos,
                te,
                &mut bold_depth,
                &mut italic_depth,
                &mut span_stack,
                theme,
                &mut final_text,
                &mut runs,
                Ghost(st),
            );
            proof {
                lemma_advance(cs@, pos as int, te + 1, done, emitted, st, st2, *theme);
                done = done + emitted;
                st = st2;
            }
            pos = te + 1;
        }
    }
    proof {
        assert(cs@.skip(pos as int) =~= Seq::<char>::empty());
        assert(done =~= done + pieces(Seq::<Token>::empty(), st, *theme));
        lemma_runs_of(done);
    }
    (string_of(final_text.as_slice()), runs)
}


/// Markup together with its rendering, computed once per theme on demand.
pub struct CachedPango {
    source: String,
    pub text: String,
    runs: Vec<TextRun>,
}

/// A cached rendering as a mathematical value.
pub struct CachedPangoView {
    pub source: Seq<char>,
    pub text: Seq<char>,
    pub runs: Seq<RunView>,
}

impl View for CachedPango {
    type V = CachedPangoView;

    closed spec fn view(&self) -> CachedPangoView {
        CachedPangoView { source: self.source@, text: self.text@, runs: runs_view(self.runs@) }
    }
}

/// The cache after `populate`: rendered when nothing was rendered yet and
/// there is markup to render, else unchanged.
pub open spec fn populated(c: CachedPangoView, theme: PangoTheme) -> CachedPangoView {
    if c.text.len() == 0 && c.source.len() > 0 {
        CachedPangoView {
            source: c.source,
            text: pango_text(c.source, theme),
            runs: pango_runs(c.source, theme),
        }
    } else {
        c
    }
}

/// A cache that has been populated for the current theme.
pub struct PopulatedPango(pub CachedPango);

impl CachedPango {
    /// A cache for `source` with nothing rendered yet.
    pub fn new(source: String) -> (res: CachedPango)
        ensures
            res@.source == source@,
            res@.text.len() == 0,
            res@.runs.len() == 0,
    {
        let res = CachedPango { source, text: String::new(), runs: Vec::new() };
        assert(runs_view(res.runs@) =~= Seq::<RunView>::empty());
        res
    }

    /// The markup the cache was made from.
    pub fn source(&self) -> (res: &String)
        ensures
            res@ == self@.source,
    {
        &self.source
    }

    /// The styled runs of the rendered text.
    pub fn runs(&self) -> (res: &Vec<TextRun>)
        ensures
            runs_view(res@) == self@.runs,
    {
        &self.runs
    }

    /// Renders the markup unless it has been rendered already.
    pub fn populate(&mut self, theme: &PangoTheme)
        ensures
            final(self)@ == populated(old(self)@, *theme),
    {
        if self.text.as_str().is_empty() && !self.source.as_str().is_empty() {
            let (text, runs) = parse_pango(self.source.as_str(), theme);
            self.text = text;
            self.runs = runs;
        }
    }

    /// Populates the cache and marks it as ready to render.
    pub fn prepared(self, theme: &PangoTheme) -> (res: PopulatedPango)
        ensures
            res.0@ == populated(self@, *theme),
    {
        let mut c = self;
        c.populate(theme);
        PopulatedPango(c)
    }
}

/// Every tag of `s` is one the renderer knows (`b`, `i`, `br`, `span` and
/// their closing tags).
pub open spec fn known_tags_only(s: Seq<char>) -> bool {
    forall|k: int|
        0 <= k < tokens(s).len() ==> match #[trigger] tokens(s)[k] {
            Token::Tag(inner, _) => classify_spec(trim_spec(inner)) != TagKind::Unknown,
            Token::Text(_) => true,
        }
}

proof fn lemma_text_of_concat(a: Seq<(Seq<char>, RunStyle)>, b: Seq<(Seq<char>, RunStyle)>)
    ensures
        text_of(a + b) == text_of(a) + text_of(b),
    decreases b.len(),
{
    if b.len() == 0 {
        assert(a + b =~= a);
    } else {
        lemma_text_of_concat(a, b.drop_last());
        assert((a + b).drop_last() =~= a + b.drop_last());
        assert((a + b).last() == b.last());
    }
}

proof fn lemma_pieces_text(ts: Seq<Token>, st: PState, theme: PangoTheme)
    requires
        forall|k: int|
            0 <= k < ts.len() ==> match #[trigger] ts[k] {
                Token::Tag(inner, _) => classify_spec(trim_spec(inner)) != TagKind::Unknown,
                Token::Text(_) => true,
            },
    ensures
        text_of(pieces(ts, st, theme)) == strip_all(ts),
    decreases ts.len(),
{
    if ts.len() > 0 {
        let (p, st2) = step(st, ts[0], theme);
        let rest = ts.drop_first();
        assert forall|k: int| 0 <= k < rest.len() implies match #[trigger] rest[k] {
            Token::Tag(inner, _) => classify_spec(trim_spec(inner)) != TagKind::Unknown,
            Token::Text(_) => true,
        } by {
            assert(rest[k] == ts[k + 1]);
        }
        lemma_pieces_text(rest, st2, theme);
        lemma_text_of_concat(p, pieces(rest, st2, theme));
        assert(ts[0] == ts[0]);
        if p.len() == 1 {
            assert(p.drop_last() =~= Seq::<(Seq<char>, RunStyle)>::empty());
            assert(text_of(p.drop_last()) == Seq::<char>::empty());
            assert(text_of(p) =~= p[0].0);
        } else {
            assert(p.len() == 0);
        }
    }
}

/// For markup whose tags are all known, `strip_pango` gives exactly the
/// text that `parse_pango` renders (unknown tags are dropped by the one
/// and kept as text by the other).
pub proof fn law_strip_matches_rendered_text(s: Seq<char>, theme: PangoTheme)
    requires
        known_tags_only(s),
    ensures
        strip_spec(s) == pango_text(s, theme),
{
    lemma_pieces_text(tokens(s), initial_state(), theme);
}

/// Populating is idempotent: a second `populate` with the same theme
/// changes nothing.
pub proof fn law_populate_idempotent(c: CachedPangoView, theme: PangoTheme)
    ensures
        populated(populated(c, theme), theme) == populated(c, theme),
{
}


/// The value of attribute `attr` in the tag body `tag`, as `get_attr_spec`
/// describes it.
pub fn get_attribute(tag: &str, attr: &str) -> (res: Option<String>)
    requires
        attr@.len() > 0,
    ensures
        match res {
            Some(v) => get_attr_spec(tag@, attr@) == Some(v@),
            None => get_attr_spec(tag@, attr@) is None,
        },
{
    let cs = chars_of(tag);
    let at = chars_of(attr);
    assert(cs@.subrange(0, cs@.len() as int) =~= cs@);
    match get_attribute_range(cs.as_slice(), 0, cs.len(), at.as_slice()) {
        Some((a, b)) => Some(string_of(&cs.as_slice()[a..b])),
        None => None,
    }
}

/// Parses a `#rrggbb` colour into RGBA `0xRRGGBBFF`.
pub fn parse_color(s: &str) -> (res: Option<u32>)
    ensures
        res == parse_color_spec(s@),
{
    let cs = chars_of(s);
    assert(cs@.subrange(0, cs@.len() as int) =~= cs@);
    parse_color_range(cs.as_slice(), 0, cs.len())
}

/// The family of the innermost span that sets one, else `default`.
pub open spec fn current_family_spec(spans: Seq<SpanView>, default: Seq<char>) -> Seq<char>
    decreases spans.len(),
{
    if spans.len() == 0 {
        default
    } else {
        match spans.last().family {
            Some(f) => f,
            None => current_family_spec(spans.drop_last(), default),
        }
    }
}

/// The colour of the innermost span that sets one.
pub open spec fn current_color_spec(spans: Seq<SpanView>) -> Option<u32>
    decreases spans.len(),
{
    if spans.len() == 0 {
        None
    } else {
        match spans.last().color {
            Some(c) => Some(c),
            None => current_color_spec(spans.drop_last()),
        }
    }
}

/// The font family in force inside the open spans `stack`.
pub fn current_family<'a>(stack: &'a [SpanState], theme: &'a PangoTheme) -> (res: &'a String)
    ensures
        res@ == current_family_spec(spans_view(stack@), theme.font_family@),
{
    let mut i = stack.len();
    assert(stack@.take(i as int) =~= stack@);
    while i > 0
        invariant
            i <= stack@.len(),
            current_family_spec(spans_view(stack@), theme.font_family@) == current_family_spec(
                spans_view(stack@.take(i as int)),
                theme.font_family@,
            ),
        decreases i,
    {
        assert(spans_view(stack@.take(i as int)).drop_last() =~= spans_view(stack@.take(i - 1)));
        assert(spans_view(stack@.take(i as int)).last() == stack@[i - 1]@);
        match stack[i - 1].family() {
            Some(f) => {
                return f;
            },
            None => {},
        }
        i = i - 1;
    }
    assert(spans_view(stack@.take(0)) =~= Seq::<SpanView>::empty());
    &theme.font_family
}

/// The colour in force inside the open spans `stack`.
pub fn current_color(stack: &[SpanState]) -> (res: Option<u32>)
    ensures
        res == current_color_spec(spans_view(stack@)),
{
    let mut i = stack.len();
    assert(stack@.take(i as int) =~= stack@);
    while i > 0
        invariant
            i <= stack@.len(),
            current_color_spec(spans_view(stack@)) == current_color_spec(
                spans_view(stack@.take(i as int)),
            ),
        decreases i,
    {
        assert(spans_view(stack@.take(i as int)).drop_last() =~= spans_view(stack@.take(i - 1)));
        assert(spans_view(stack@.take(i as int)).last() == stack@[i - 1]@);
        match stack[i - 1].color() {
            Some(c) => {
                return Some(c);
            },
            None => {},
        }
        i = i - 1;
    }
    assert(spans_view(stack@.take(0)) =~= Seq::<SpanView>::empty());
    None
}

/// `s` with its ASCII letters lower-cased.
pub open spec fn lower_chars(s: Seq<char>) -> Seq<char> {
    s.map_values(|c: char| ascii_lower_char(c))
}

proof fn lemma_lower_char(c: char)
    ensures
        ('A' <= c && c <= 'Z') ==> ascii_lower_char(c) as u32 == c as u32 + 32 && 'a' <= ascii_lower_char(c)
            <= 'z',
        !('A' <= c && c <= 'Z') ==> ascii_lower_char(c) == c,
        crate::text::is_white_space(ascii_lower_char(c)) == crate::text::is_white_space(c),
        hex_digit_value(ascii_lower_char(c)) == hex_digit_value(c),
        (ascii_lower_char(c) == '#') == (c == '#'),
        (ascii_lower_char(c) == '+') == (c == '+'),
        crate::text::char_width_spec(ascii_lower_char(c)) == crate::text::char_width_spec(c),
{
}

proof fn lemma_trim_start_lower(s: Seq<char>)
    ensures
        crate::text::trim_start_spec(lower_chars(s)) == lower_chars(crate::text::trim_start_spec(s)),
    decreases s.len(),
{
    if s.len() > 0 {
        lemma_lower_char(s[0]);
        assert(lower_chars(s)[0] == ascii_lower_char(s[0]));
        assert(lower_chars(s).drop_first() == lower_chars(s.drop_first()));
        lemma_trim_start_lower(s.drop_first());
    }
}

proof fn lemma_trim_end_lower(s: Seq<char>)
    ensures
        crate::text::trim_end_spec(lower_chars(s)) == lower_chars(crate::text::trim_end_spec(s)),
    decreases s.len(),
{
    if s.len() > 0 {
        lemma_lower_char(s.last());
        assert(lower_chars(s).last() == ascii_lower_char(s.last()));
        assert(lower_chars(s).drop_last() == lower_chars(s.drop_last()));
        lemma_trim_end_lower(s.drop_last());
    }
}

proof fn lemma_prefix_hash_lower(s: Seq<char>)
    ensures
        prefix_count(lower_chars(s), is_char('#')) == prefix_count(s, is_char('#')),
    decreases s.len(),
{
    if s.len() > 0 {
        lemma_lower_char(s[0]);
        assert(lower_chars(s)[0] == ascii_lower_char(s[0]));
        assert(lower_chars(s).drop_first() == lower_chars(s.drop_first()));
        lemma_prefix_hash_lower(s.drop_first());
    }
}

proof fn lemma_byte_len_lower(s: Seq<char>)
    ensures
        byte_len(lower_chars(s)) == byte_len(s),
    decreases s.len(),
{
    if s.len() > 0 {
        let l = lower_chars(s);
        lemma_byte_len_lower(s.drop_last());
        assert(l.drop_last() == lower_chars(s.drop_last()));
        assert(s == s.drop_last() + seq![s.last()]);
        assert(l == l.drop_last() + seq![ascii_lower_char(s.last())]);
        crate::text::lemma_byte_len_concat(s.drop_last(), seq![s.last()]);
        crate::text::lemma_byte_len_concat(l.drop_last(), seq![ascii_lower_char(s.last())]);
        crate::text::lemma_byte_len_single(s.last());
        crate::text::lemma_byte_len_single(ascii_lower_char(s.last()));
        lemma_lower_char(s.last());
    }
}

proof fn lemma_hex_value_lower(d: Seq<char>)
    ensures
        hex_value(lower_chars(d)) == hex_value(d),
        all_hex(lower_chars(d)) == all_hex(d),
    decreases d.len(),
{
    let l = lower_chars(d);
    assert forall|i: int| 0 <= i < d.len() implies hex_digit_value(#[trigger] l[i]) == hex_digit_value(d[i]) by {
        lemma_lower_char(d[i]);
    }
    if d.len() > 0 {
        assert(l.drop_last() == lower_chars(d.drop_last()));
        lemma_hex_value_lower(d.drop_last());
        assert(hex_digit_value(l.last()) == hex_digit_value(d.last()));
    }
    if all_hex(d) {
        assert forall|i: int| 0 <= i < l.len() implies hex_digit_value(#[trigger] l[i]) >= 0 by {
            assert(hex_digit_value(d[i]) >= 0);
        }
    }
    if all_hex(l) {
        assert forall|i: int| 0 <= i < d.len() implies hex_digit_value(#[trigger] d[i]) >= 0 by {
            assert(hex_digit_value(l[i]) >= 0);
        }
    }
}

/// Colour digits ignore ASCII case: a colour string reads as the same
/// colour as its lower-cased form, so `#FF8000` is `#ff8000`.
pub proof fn law_color_ignores_case(s: Seq<char>)
    ensures
        parse_color_spec(lower_chars(s)) == parse_color_spec(s),
{
    let tr = trim_spec(s);
    lemma_trim_start_lower(s);
    lemma_trim_end_lower(crate::text::trim_start_spec(s));
    assert(trim_spec(lower_chars(s)) == lower_chars(tr));
    lemma_prefix_hash_lower(tr);
    let k = prefix_count(tr, is_char('#'));
    let t = trim_start_char(tr, '#');
    lemma_prefix_count_le(tr, is_char('#'));
    assert(lower_chars(tr).skip(k as int) == lower_chars(t));
    let lt = lower_chars(t);
    lemma_byte_len_lower(t);
    let d = digits_part(t);
    if t.len() > 0 {
        lemma_lower_char(t[0]);
        assert(lt[0] == ascii_lower_char(t[0]));
        assert(lt.drop_first() == lower_chars(t.drop_first()));
    } else {
        assert(lt.len() == 0);
    }
    assert(digits_part(lt) == lower_chars(d));
    lemma_hex_value_lower(d);
}

} // verus!

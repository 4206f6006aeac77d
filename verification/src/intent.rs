//! Reading what the user means from the search text: splitting it into
//! tokens, dropping filler words, walking the tokens with a cursor, and
//! recognising a translation request.

use vstd::prelude::*;
use crate::pango::{eq_ignore_case, occurs_at, range_eq_ignore_case, range_eq_pub};
use crate::text::{chars_of, string_of, trim_bounds, trim_spec};

verus! {

/// Characters that separate tokens.
pub open spec fn is_separator(c: char) -> bool {
    c == ' ' || c == '(' || c == ')' || c == '%' || c == ','
}

pub open spec fn is_digit(c: char) -> bool {
    '0' <= c && c <= '9'
}

/// A token splits between `prev` and `c` where digits meet non-digits,
/// unless either side is a `.`.
pub open spec fn is_boundary(prev: char, c: char) -> bool {
    is_digit(prev) != is_digit(c) && prev != '.' && c != '.'
}

/// The first index `j >= i` (with `j >= 1`) of `t` where a boundary lies
/// between `t[j - 1]` and `t[j]`.
pub open spec fn boundary_from(t: Seq<char>, i: int) -> Option<int>
    decreases t.len() - i,
{
    if i < 1 || i >= t.len() {
        None
    } else if is_boundary(t[i - 1], t[i]) {
        Some(i)
    } else {
        boundary_from(t, i + 1)
    }
}

/// The tokens a non-empty word gives: a word starting with `#` stays
/// whole; any other word is split once, at its first boundary.
pub open spec fn split_word(w: Seq<char>) -> Seq<Seq<char>> {
    if w.len() == 0 {
        Seq::empty()
    } else if w[0] == '#' {
        seq![w]
    } else {
        match boundary_from(w, 1) {
            Some(i) => seq![w.take(i), w.skip(i)],
            None => seq![w],
        }
    }
}

/// The tokens of `s[i..]`, where the current word began at `start`: words
/// are the maximal runs between separators, and empty ones give nothing.
pub open spec fn tokens_scan(s: Seq<char>, start: int, i: int) -> Seq<Seq<char>>
    decreases s.len() - i,
{
    if i >= s.len() {
        split_word(s.subrange(start, s.len() as int))
    } else if is_separator(s[i]) {
        split_word(s.subrange(start, i)) + tokens_scan(s, i + 1, i + 1)
    } else {
        tokens_scan(s, start, i + 1)
    }
}

/// The tokens of `s`.
pub open spec fn token_list(s: Seq<char>) -> Seq<Seq<char>> {
    tokens_scan(s, 0, 0)
}

/// The contents of a list of strings.
pub open spec fn strings_view(v: Seq<String>) -> Seq<Seq<char>> {
    v.map_values(|x: String| x@)
}

proof fn lemma_strings_view_push(v: Seq<String>, x: String)
    ensures
        strings_view(v.push(x)) == strings_view(v).push(x@),
{
    assert(strings_view(v.push(x)) =~= strings_view(v).push(x@));
}

fn is_separator_char(c: char) -> (r: bool)
    ensures
        r == is_separator(c),
{
    c == ' ' || c == '(' || c == ')' || c == '%' || c == ','
}

fn is_digit_char(c: char) -> (r: bool)
    ensures
        r == is_digit(c),
{
    '0' <= c && c <= '9'
}

/// Appends the tokens of the word `cs[lo..hi]` to `out`.
fn push_word(cs: &[char], lo: usize, hi: usize, out: &mut Vec<String>)
    requires
        lo <= hi <= cs@.len(),
    ensures
        strings_view(final(out)@) == strings_view(old(out)@) + split_word(
            cs@.subrange(lo as int, hi as int),
        ),
{
    let ghost w = cs@.subrange(lo as int, hi as int);
    if lo == hi {
        assert(strings_view(out@) + split_word(w) =~= strings_view(out@));
        return;
    }
    let word = vstd::slice::slice_subrange(cs, lo, hi);
    if cs[lo] == '#' {
        let t = string_of(word);
        proof {
            lemma_strings_view_push(out@, t);
        }
        out.push(t);
        assert(strings_view(out@) =~= strings_view(old(out)@) + split_word(w));
        return;
    }
    let mut j: usize = lo + 1;
    while j < hi
        invariant
            lo < j <= hi <= cs@.len(),
            w == cs@.subrange(lo as int, hi as int),
            out@ == old(out)@,
            w[0] != '#',
            boundary_from(w, 1) == boundary_from(w, j - lo),
        decreases hi - j,
    {
        if is_digit_char(cs[j - 1]) != is_digit_char(cs[j]) && cs[j - 1] != '.' && cs[j] != '.' {
            assert(w[j - lo - 1] == cs@[j - 1]);
            assert(w[j - lo] == cs@[j as int]);
            let a = string_of(vstd::slice::slice_subrange(cs, lo, j));
            let b = string_of(vstd::slice::slice_subrange(cs, j, hi));
            proof {
                lemma_strings_view_push(out@, a);
                lemma_strings_view_push(out@.push(a), b);
                assert(a@ == w.take(j - lo));
                assert(b@ == w.skip(j - lo));
            }
            out.push(a);
            out.push(b);
            assert(strings_view(out@) =~= strings_view(old(out)@) + split_word(w));
            return;
        }
        assert(w[j - lo - 1] == cs@[j - 1]);
        assert(w[j - lo] == cs@[j as int]);
        j = j + 1;
    }
    let t = string_of(word);
    proof {
        lemma_strings_view_push(out@, t);
    }
    out.push(t);
    assert(strings_view(out@) =~= strings_view(old(out)@) + split_word(w));
}

/// The tokens of `input`: the runs between the separators ` ( ) % ,`,
/// each split once where digits meet other characters (`"5min"` gives
/// `"5"` and `"min"`), unless the split would touch a `.` or the run starts
/// with `#`.
pub fn tokenize(input: &str) -> (r: Vec<String>)
    ensures
        strings_view(r@) == token_list(input@),
{
    let cs = chars_of(input);
    let mut out: Vec<String> = Vec::new();
    let mut start: usize = 0;
    let mut i: usize = 0;
    while i < cs.len()
        invariant
            cs@ == input@,
            start <= i <= cs@.len(),
            token_list(input@) == strings_view(out@) + tokens_scan(input@, start as int, i as int),
        decreases cs@.len() - i,
    {
        if is_separator_char(cs[i]) {
            push_word(cs.as_slice(), start, i, &mut out);
            start = i + 1;
        }
        i = i + 1;
    }
    push_word(cs.as_slice(), start, cs.len(), &mut out);
    out
}

/// Keeps the characters that are not separators.
pub open spec fn not_separator() -> spec_fn(char) -> bool {
    |c: char| !is_separator(c)
}

/// `t` is non-empty and holds no separator.
pub open spec fn is_clean_token(t: Seq<char>) -> bool {
    t.len() > 0 && forall|j: int| 0 <= j < t.len() ==> !is_separator(#[trigger] t[j])
}

proof fn lemma_filter_keeps_all(s: Seq<char>, f: spec_fn(char) -> bool)
    requires
        forall|j: int| 0 <= j < s.len() ==> f(#[trigger] s[j]),
    ensures
        s.filter(f) == s,
    decreases s.len(),
{
    reveal(Seq::filter);
    if s.len() > 0 {
        lemma_filter_keeps_all(s.drop_last(), f);
        assert(s.drop_last().push(s.last()) == s);
    }
}

proof fn lemma_split_word(w: Seq<char>)
    requires
        forall|j: int| 0 <= j < w.len() ==> !is_separator(#[trigger] w[j]),
    ensures
        split_word(w).flatten() == w,
        forall|k: int| 0 <= k < split_word(w).len() ==> is_clean_token(#[trigger] split_word(w)[k]),
{
    let p = split_word(w);
    if w.len() == 0 {
        assert(p.flatten() == Seq::<char>::empty());
    } else if w[0] == '#' {
        p.lemma_flatten_one_element();
    } else {
        match boundary_from(w, 1) {
            Some(i) => {
                lemma_boundary_from(w, 1);
                assert(p.first() == w.take(i));
                assert(p.drop_first() == seq![w.skip(i)]);
                assert(p.flatten() == w.take(i) + seq![w.skip(i)].flatten());
                seq![w.skip(i)].lemma_flatten_one_element();
                assert(w.take(i) + w.skip(i) == w);
                assert forall|k: int| 0 <= k < p.len() implies is_clean_token(#[trigger] p[k]) by {
                    if k == 0 {
                        assert forall|j: int| 0 <= j < p[k].len() implies !is_separator(#[trigger] p[k][j]) by {
                            assert(p[k][j] == w[j]);
                        }
                    } else {
                        assert forall|j: int| 0 <= j < p[k].len() implies !is_separator(#[trigger] p[k][j]) by {
                            assert(p[k][j] == w[i + j]);
                        }
                    }
                }
            },
            None => {
                p.lemma_flatten_one_element();
            },
        }
    }
}

proof fn lemma_boundary_from(t: Seq<char>, i: int)
    ensures
        boundary_from(t, i) matches Some(k) ==> i <= k && 1 <= k < t.len(),
    decreases t.len() - i,
{
    if !(i < 1 || i >= t.len()) && !is_boundary(t[i - 1], t[i]) {
        lemma_boundary_from(t, i + 1);
    }
}

proof fn lemma_filter_at_separator(s: Seq<char>, start: int, i: int)
    requires
        0 <= start <= i < s.len(),
        is_separator(s[i]),
        forall|j: int| start <= j < i ==> !is_separator(#[trigger] s[j]),
    ensures
        s.subrange(start, s.len() as int).filter(not_separator()) == s.subrange(start, i) + s.subrange(
            i + 1,
            s.len() as int,
        ).filter(not_separator()),
{
    let f = not_separator();
    let w = s.subrange(start, i);
    let tail = s.subrange(i + 1, s.len() as int);
    assert forall|j: int| 0 <= j < w.len() implies f(#[trigger] w[j]) by {
        assert(w[j] == s[start + j]);
    }
    assert(s.subrange(start, s.len() as int) == w + (seq![s[i]] + tail));
    Seq::filter_distributes_over_add(w, seq![s[i]] + tail, f);
    Seq::filter_distributes_over_add(seq![s[i]], tail, f);
    lemma_filter_keeps_all(w, f);
    assert(seq![s[i]].filter(f) == Seq::<char>::empty()) by {
        reveal(Seq::filter);
        assert(seq![s[i]].drop_last() == Seq::<char>::empty());
        assert(Seq::<char>::empty().filter(f) == Seq::<char>::empty());
        assert(!f(seq![s[i]].last()));
    }
    assert(seq![s[i]].filter(f) + tail.filter(f) == tail.filter(f));
}

proof fn lemma_join_tokens(w: Seq<char>, rest: Seq<Seq<char>>)
    requires
        forall|j: int| 0 <= j < w.len() ==> !is_separator(#[trigger] w[j]),
        forall|k: int| 0 <= k < rest.len() ==> is_clean_token(#[trigger] rest[k]),
    ensures
        (split_word(w) + rest).flatten() == w + rest.flatten(),
        forall|k: int|
            0 <= k < (split_word(w) + rest).len() ==> is_clean_token(#[trigger] (split_word(w) + rest)[k]),
{
    let sw = split_word(w);
    lemma_split_word(w);
    vstd::seq_lib::lemma_flatten_concat(sw, rest);
    let all = sw + rest;
    assert forall|k: int| 0 <= k < all.len() implies is_clean_token(#[trigger] all[k]) by {
        if k >= sw.len() {
            assert(all[k] == rest[k - sw.len()]);
        } else {
            assert(all[k] == sw[k]);
        }
    }
}

proof fn lemma_tokens_scan(s: Seq<char>, start: int, i: int)
    requires
        0 <= start <= i <= s.len(),
        forall|j: int| start <= j < i ==> !is_separator(#[trigger] s[j]),
    ensures
        tokens_scan(s, start, i).flatten() == s.subrange(start, s.len() as int).filter(
            not_separator(),
        ),
        forall|k: int|
            0 <= k < tokens_scan(s, start, i).len() ==> is_clean_token(
                #[trigger] tokens_scan(s, start, i)[k],
            ),
    decreases s.len() - i,
{
    let f = not_separator();
    if i >= s.len() {
        let w = s.subrange(start, s.len() as int);
        assert forall|j: int| 0 <= j < w.len() implies !is_separator(#[trigger] w[j]) by {
            assert(w[j] == s[start + j]);
        }
        lemma_split_word(w);
        lemma_filter_keeps_all(w, f);
    } else if is_separator(s[i]) {
        lemma_tokens_scan(s, i + 1, i + 1);
        let w = s.subrange(start, i);
        assert forall|j: int| 0 <= j < w.len() implies !is_separator(#[trigger] w[j]) by {
            assert(w[j] == s[start + j]);
        }
        lemma_join_tokens(w, tokens_scan(s, i + 1, i + 1));
        lemma_filter_at_separator(s, start, i);
    } else {
        lemma_tokens_scan(s, start, i + 1);
    }
}

/// Tokenizing loses nothing but separators: every token is non-empty and
/// holds no separator, and the tokens, joined, give the input with its
/// separators removed.
pub proof fn law_tokens_cover_input(s: Seq<char>)
    ensures
        token_list(s).flatten() == s.filter(not_separator()),
        forall|k: int| 0 <= k < token_list(s).len() ==> is_clean_token(#[trigger] token_list(s)[k]),
{
    lemma_tokens_scan(s, 0, 0);
    assert(s.subrange(0, s.len() as int) == s);
}

/// Words that join a quantity to its target, ignoring ASCII case.
pub open spec fn is_connector_word(t: Seq<char>) -> bool {
    ||| eq_ignore_case(t, seq!['t', 'o'])
    ||| eq_ignore_case(t, seq!['i', 'n'])
    ||| eq_ignore_case(t, seq!['a', 's'])
    ||| eq_ignore_case(t, seq!['i', 'n', 't', 'o'])
    ||| eq_ignore_case(t, seq!['-', '>'])
    ||| eq_ignore_case(t, seq!['=', '>'])
}

/// Filler words that carry no meaning for a request, ignoring ASCII case.
pub open spec fn is_noise_word(t: Seq<char>) -> bool {
    ||| eq_ignore_case(t, seq!['h', 'o', 'w'])
    ||| eq_ignore_case(t, seq!['m', 'u', 'c', 'h'])
    ||| eq_ignore_case(t, seq!['i', 's'])
    ||| eq_ignore_case(t, seq!['a', 'r', 'e'])
    ||| eq_ignore_case(t, seq!['c', 'o', 'n', 'v', 'e', 'r', 't'])
    ||| eq_ignore_case(t, seq!['w', 'h', 'a', 't'])
    ||| eq_ignore_case(t, seq!['c', 'r', 'e', 'a', 't', 'e'])
    ||| eq_ignore_case(t, seq!['s', 't', 'a', 'r', 't'])
    ||| eq_ignore_case(t, seq!['a'])
    ||| eq_ignore_case(t, seq!['n', 'e', 'w'])
    ||| eq_ignore_case(t, seq!['f', 'o', 'r'])
    ||| eq_ignore_case(t, seq!['s', 'e', 't'])
    ||| eq_ignore_case(t, seq!['t', 'h', 'e'])
}

/// Whether `t` is a connector word (`to`, `in`, `as`, `into`, `->`, `=>`).
pub fn is_connector(t: &str) -> (r: bool)
    ensures
        r == is_connector_word(t@),
{
    let cs = chars_of(t);
    let n = cs.len();
    assert(cs@.subrange(0, n as int) == t@);
    let c = cs.as_slice();
    range_eq_ignore_case(c, 0, n, &['t', 'o']) || range_eq_ignore_case(c, 0, n, &['i', 'n'])
        || range_eq_ignore_case(c, 0, n, &['a', 's']) || range_eq_ignore_case(
        c,
        0,
        n,
        &['i', 'n', 't', 'o'],
    ) || range_eq_ignore_case(c, 0, n, &['-', '>']) || range_eq_ignore_case(c, 0, n, &['=', '>'])
}

/// Whether `t` is a filler word (`how`, `much`, `is`, `are`, `convert`,
/// `what`, `create`, `start`, `a`, `new`, `for`, `set`, `the`).
pub fn is_noise(t: &str) -> (r: bool)
    ensures
        r == is_noise_word(t@),
{
    let cs = chars_of(t);
    let n = cs.len();
    assert(cs@.subrange(0, n as int) == t@);
    let c = cs.as_slice();
    range_eq_ignore_case(c, 0, n, &['h', 'o', 'w']) || range_eq_ignore_case(
        c,
        0,
        n,
        &['m', 'u', 'c', 'h'],
    ) || range_eq_ignore_case(c, 0, n, &['i', 's']) || range_eq_ignore_case(
        c,
        0,
        n,
        &['a', 'r', 'e'],
    ) || range_eq_ignore_case(c, 0, n, &['c', 'o', 'n', 'v', 'e', 'r', 't'])
        || range_eq_ignore_case(c, 0, n, &['w', 'h', 'a', 't']) || range_eq_ignore_case(
        c,
        0,
        n,
        &['c', 'r', 'e', 'a', 't', 'e'],
    ) || range_eq_ignore_case(c, 0, n, &['s', 't', 'a', 'r', 't']) || range_eq_ignore_case(
        c,
        0,
        n,
        &['a'],
    ) || range_eq_ignore_case(c, 0, n, &['n', 'e', 'w']) || range_eq_ignore_case(
        c,
        0,
        n,
        &['f', 'o', 'r'],
    ) || range_eq_ignore_case(c, 0, n, &['s', 'e', 't']) || range_eq_ignore_case(
        c,
        0,
        n,
        &['t', 'h', 'e'],
    )
}

/// The tokens of `s` that are not filler words.
pub open spec fn meaningful_tokens(s: Seq<char>) -> Seq<Seq<char>> {
    token_list(s).filter(|t: Seq<char>| !is_noise_word(t))
}

/// The tokens of `input` without the filler words, in order.
pub fn tokenize_kill_noise(input: &str) -> (r: Vec<String>)
    ensures
        strings_view(r@) == meaningful_tokens(input@),
{
    let all = tokenize(input);
    let ghost f = |t: Seq<char>| !is_noise_word(t);
    let mut out: Vec<String> = Vec::new();
    let mut i: usize = 0;
    while i < all.len()
        invariant
            i <= all@.len(),
            strings_view(all@) == token_list(input@),
            f == (|t: Seq<char>| !is_noise_word(t)),
            strings_view(out@) == strings_view(all@).take(i as int).filter(f),
        decreases all@.len() - i,
    {
        let ghost pre = strings_view(all@).take(i as int);
        assert(strings_view(all@).take(i + 1).drop_last() == pre);
        assert(strings_view(all@).take(i + 1).last() == all@[i as int]@);
        let ghost x = all@[i as int]@;
        assert(strings_view(all@).take(i + 1).filter(f) == (if !is_noise_word(x) {
            pre.filter(f).push(x)
        } else {
            pre.filter(f)
        })) by {
            reveal(Seq::filter);
            assert(f(x) == !is_noise_word(x));
            assert(strings_view(all@).take(i + 1).len() > 0);
        }
        if !is_noise(all[i].as_str()) {
            let t = all[i].clone();
            proof {
                lemma_strings_view_push(out@, t);
            }
            out.push(t);
        }
        i = i + 1;
    }
    assert(strings_view(all@).take(i as int) == strings_view(all@));
    out
}

/// No filler word survives `tokenize_kill_noise`, and nothing is added.
pub proof fn law_kill_noise_drops_only_noise(s: Seq<char>)
    ensures
        forall|k: int|
            0 <= k < meaningful_tokens(s).len() ==> !is_noise_word(#[trigger] meaningful_tokens(s)[k]),
        meaningful_tokens(s).len() <= token_list(s).len(),
{
    let f = |t: Seq<char>| !is_noise_word(t);
    token_list(s).lemma_filter_len(f);
    assert forall|k: int| 0 <= k < meaningful_tokens(s).len() implies !is_noise_word(
        #[trigger] meaningful_tokens(s)[k],
    ) by {
        token_list(s).lemma_filter_pred(f, k);
    }
}

/// The token at `i` of `ts`, if there is one.
pub open spec fn token_at<'t>(ts: Seq<&'t str>, i: int) -> Option<&'t str> {
    if 0 <= i < ts.len() {
        Some(ts[i])
    } else {
        None
    }
}

/// A position in a list of tokens.
#[derive(Clone, Copy)]
pub struct Cursor<'t> {
    tokens: &'t [&'t str],
    pos: usize,
}

impl<'t> Cursor<'t> {
    /// The tokens walked over.
    pub closed spec fn tokens(&self) -> Seq<&'t str> {
        self.tokens@
    }

    /// The index of the current token; it may lie past the end.
    pub closed spec fn pos(&self) -> nat {
        self.pos as nat
    }

    /// A cursor at the first of `tokens`.
    pub fn new(tokens: &'t [&'t str]) -> (c: Self)
        ensures
            c.tokens() == tokens@,
            c.pos() == 0,
    {
        Cursor { tokens, pos: 0 }
    }

    /// The current token.
    pub fn peek(&self) -> (r: Option<&'t str>)
        ensures
            r == token_at(self.tokens(), self.pos() as int),
    {
        if self.pos < self.tokens.len() {
            Some(self.tokens[self.pos])
        } else {
            None
        }
    }

    /// The token after the current one.
    pub fn peek2(&self) -> (r: Option<&'t str>)
        requires
            self.pos() < usize::MAX,
        ensures
            r == token_at(self.tokens(), self.pos() + 1int),
    {
        if self.pos + 1 < self.tokens.len() {
            Some(self.tokens[self.pos + 1])
        } else {
            None
        }
    }

    /// Returns the current token and moves past it; at the end, returns
    /// `None` and stays.
    pub fn advance(&mut self) -> (r: Option<&'t str>)
        ensures
            r == token_at(old(self).tokens(), old(self).pos() as int),
            final(self).tokens() == old(self).tokens(),
            final(self).pos() == if r.is_some() {
                old(self).pos() + 1
            } else {
                old(self).pos()
            },
    {
        if self.pos < self.tokens.len() {
            let t = self.tokens[self.pos];
            self.pos = self.pos + 1;
            Some(t)
        } else {
            None
        }
    }

    /// The tokens from the current one on.
    pub fn remaining(&self) -> (r: &'t [&'t str])
        requires
            self.pos() <= self.tokens().len(),
        ensures
            r@ == self.tokens().skip(self.pos() as int),
    {
        let r = vstd::slice::slice_subrange(self.tokens, self.pos, self.tokens.len());
        assert(r@ =~= self.tokens().skip(self.pos() as int));
        r
    }

    /// Whether no token is left.
    pub fn is_empty(&self) -> (r: bool)
        ensures
            r == (self.pos() >= self.tokens().len()),
    {
        self.pos >= self.tokens.len()
    }

    /// The current position, to come back to with `restore`.
    pub fn save(&self) -> (r: usize)
        ensures
            r == self.pos(),
    {
        self.pos
    }

    /// Moves the cursor to the position `snap`.
    pub fn restore(&mut self, snap: usize)
        ensures
            final(self).tokens() == old(self).tokens(),
            final(self).pos() == snap,
    {
        self.pos = snap;
    }
}

/// The languages a translation can be asked for.
#[derive(PartialEq, Eq, Structural, Clone, Copy, Debug)]
pub enum Language {
    English,
    German,
    French,
    Spanish,
    Italian,
    Portuguese,
    Dutch,
    Polish,
    Russian,
    Japanese,
    Chinese,
    Korean,
}

/// The language whose English name is `s`, ignoring ASCII case.
pub open spec fn language_named(s: Seq<char>) -> Option<Language> {
    if eq_ignore_case(s, seq!['e', 'n', 'g', 'l', 'i', 's', 'h']) {
        Some(Language::English)
    } else if eq_ignore_case(s, seq!['g', 'e', 'r', 'm', 'a', 'n']) {
        Some(Language::German)
    } else if eq_ignore_case(s, seq!['f', 'r', 'e', 'n', 'c', 'h']) {
        Some(Language::French)
    } else if eq_ignore_case(s, seq!['s', 'p', 'a', 'n', 'i', 's', 'h']) {
        Some(Language::Spanish)
    } else if eq_ignore_case(s, seq!['i', 't', 'a', 'l', 'i', 'a', 'n']) {
        Some(Language::Italian)
    } else if eq_ignore_case(s, seq!['p', 'o', 'r', 't', 'u', 'g', 'u', 'e', 's', 'e']) {
        Some(Language::Portuguese)
    } else if eq_ignore_case(s, seq!['d', 'u', 't', 'c', 'h']) {
        Some(Language::Dutch)
    } else if eq_ignore_case(s, seq!['p', 'o', 'l', 'i', 's', 'h']) {
        Some(Language::Polish)
    } else if eq_ignore_case(s, seq!['r', 'u', 's', 's', 'i', 'a', 'n']) {
        Some(Language::Russian)
    } else if eq_ignore_case(s, seq!['j', 'a', 'p', 'a', 'n', 'e', 's', 'e']) {
        Some(Language::Japanese)
    } else if eq_ignore_case(s, seq!['c', 'h', 'i', 'n', 'e', 's', 'e']) {
        Some(Language::Chinese)
    } else if eq_ignore_case(s, seq!['k', 'o', 'r', 'e', 'a', 'n']) {
        Some(Language::Korean)
    } else {
        None
    }
}

fn language_in(cs: &[char], lo: usize, hi: usize) -> (r: Option<Language>)
    requires
        lo <= hi <= cs@.len(),
    ensures
        r == language_named(cs@.subrange(lo as int, hi as int)),
{
    if range_eq_ignore_case(cs, lo, hi, &['e', 'n', 'g', 'l', 'i', 's', 'h']) {
        Some(Language::English)
    } else if range_eq_ignore_case(cs, lo, hi, &['g', 'e', 'r', 'm', 'a', 'n']) {
        Some(Language::German)
    } else if range_eq_ignore_case(cs, lo, hi, &['f', 'r', 'e', 'n', 'c', 'h']) {
        Some(Language::French)
    } else if range_eq_ignore_case(cs, lo, hi, &['s', 'p', 'a', 'n', 'i', 's', 'h']) {
        Some(Language::Spanish)
    } else if range_eq_ignore_case(cs, lo, hi, &['i', 't', 'a', 'l', 'i', 'a', 'n']) {
        Some(Language::Italian)
    } else if range_eq_ignore_case(cs, lo, hi, &['p', 'o', 'r', 't', 'u', 'g', 'u', 'e', 's', 'e']) {
        Some(Language::Portuguese)
    } else if range_eq_ignore_case(cs, lo, hi, &['d', 'u', 't', 'c', 'h']) {
        Some(Language::Dutch)
    } else if range_eq_ignore_case(cs, lo, hi, &['p', 'o', 'l', 'i', 's', 'h']) {
        Some(Language::Polish)
    } else if range_eq_ignore_case(cs, lo, hi, &['r', 'u', 's', 's', 'i', 'a', 'n']) {
        Some(Language::Russian)
    } else if range_eq_ignore_case(cs, lo, hi, &['j', 'a', 'p', 'a', 'n', 'e', 's', 'e']) {
        Some(Language::Japanese)
    } else if range_eq_ignore_case(cs, lo, hi, &['c', 'h', 'i', 'n', 'e', 's', 'e']) {
        Some(Language::Chinese)
    } else if range_eq_ignore_case(cs, lo, hi, &['k', 'o', 'r', 'e', 'a', 'n']) {
        Some(Language::Korean)
    } else {
        None
    }
}

impl Language {
    /// The language whose English name is `s`, ignoring ASCII case.
    pub fn from_str(s: &str) -> (r: Option<Language>)
        ensures
            r == language_named(s@),
    {
        let cs = chars_of(s);
        assert(cs@.subrange(0, cs@.len() as int) == s@);
        language_in(cs.as_slice(), 0, cs.len())
    }
}

/// What the user asked for.
#[derive(Debug)]
pub enum Intent {
    /// Translate `text` into `target_lang`.
    Translation { text: String, target_lang: Language },
}

/// The last index at or before `i` where `pat` occurs in `s`.
pub open spec fn last_from(s: Seq<char>, pat: Seq<char>, i: int) -> Option<int>
    decreases i + 1,
{
    if i < 0 {
        None
    } else if occurs_at(s, pat, i) {
        Some(i)
    } else {
        last_from(s, pat, i - 1)
    }
}

/// The index of the last occurrence of `pat` in `s`.
pub open spec fn rfind_seq(s: Seq<char>, pat: Seq<char>) -> Option<int> {
    last_from(s, pat, s.len() - pat.len())
}

/// Where a translation request splits: the later of the last ` to ` and
/// the last ` in `.
pub open spec fn translation_split(s: Seq<char>) -> Option<int> {
    match (rfind_seq(s, seq![' ', 't', 'o', ' ']), rfind_seq(s, seq![' ', 'i', 'n', ' '])) {
        (Some(a), Some(b)) => Some(if a >= b {
            a
        } else {
            b
        }),
        (Some(a), None) => Some(a),
        (None, Some(b)) => Some(b),
        (None, None) => None,
    }
}

/// The translation asked for by `s`, as its text and target language:
/// `s` splits at `translation_split`; the trimmed parts before and after
/// the four-character connector must both be non-empty, and the part after
/// it must name a language.
pub open spec fn translation_spec(s: Seq<char>) -> Option<(Seq<char>, Language)> {
    match translation_split(s) {
        None => None,
        Some(i) => {
            let text = trim_spec(s.take(i));
            let lang = trim_spec(s.skip(i + 4));
            if text.len() == 0 || lang.len() == 0 {
                None
            } else {
                match language_named(lang) {
                    Some(l) => Some((text, l)),
                    None => None,
                }
            }
        },
    }
}

proof fn lemma_last_from(s: Seq<char>, pat: Seq<char>, i: int)
    ensures
        match last_from(s, pat, i) {
            Some(k) => occurs_at(s, pat, k) && k <= i && forall|j: int| k < j <= i ==> !occurs_at(s, pat, j),
            None => forall|j: int| j <= i ==> !occurs_at(s, pat, j),
        },
    decreases i + 1,
{
    if i >= 0 && !occurs_at(s, pat, i) {
        lemma_last_from(s, pat, i - 1);
    }
}

/// A translation request splits at the last connector: the split index
/// starts an occurrence of ` to ` or ` in `, and neither connector occurs
/// anywhere after it; with no connector at all there is no split.
pub proof fn law_split_at_last_connector(s: Seq<char>)
    ensures
        match translation_split(s) {
            Some(i) => {
                &&& occurs_at(s, seq![' ', 't', 'o', ' '], i) || occurs_at(s, seq![' ', 'i', 'n', ' '], i)
                &&& forall|j: int|
                    i < j ==> !occurs_at(s, seq![' ', 't', 'o', ' '], j) && !occurs_at(
                        s,
                        seq![' ', 'i', 'n', ' '],
                        j,
                    )
            },
            None => forall|j: int|
                !occurs_at(s, seq![' ', 't', 'o', ' '], j) && !occurs_at(s, seq![' ', 'i', 'n', ' '], j),
        },
{
    let to = seq![' ', 't', 'o', ' '];
    let inn = seq![' ', 'i', 'n', ' '];
    lemma_last_from(s, to, s.len() - 4);
    lemma_last_from(s, inn, s.len() - 4);
    assert forall|j: int| j > s.len() - 4 implies !occurs_at(s, to, j) && !occurs_at(s, inn, j) by {}
}

fn rfind_in(cs: &[char], pat: &[char]) -> (r: Option<usize>)
    ensures
        match r {
            Some(i) => rfind_seq(cs@, pat@) == Some(i as int),
            None => rfind_seq(cs@, pat@) == None::<int>,
        },
{
    if pat.len() > cs.len() {
        return None;
    }
    let n = cs.len();
    let mut i: usize = n - pat.len();
    loop
        invariant
            n == cs@.len(),
            pat@.len() <= cs@.len(),
            i <= cs@.len() - pat@.len(),
            rfind_seq(cs@, pat@) == last_from(cs@, pat@, i as int),
        decreases i,
    {
        if range_eq_pub(cs, i, i + pat.len(), pat) {
            return Some(i);
        }
        if i == 0 {
            assert(last_from(cs@, pat@, -1) == None::<int>);
            return None;
        }
        i = i - 1;
    }
}

/// Reads a translation request such as `"translate hello to spanish"`.
pub struct TranslationParser;

impl TranslationParser {
    /// The translation `input` asks for: the text before the last ` to `
    /// or ` in ` (whichever comes later), into the language named after it.
    pub fn parse_intent(input: &str) -> (r: Option<Intent>)
        ensures
            match translation_spec(input@) {
                Some((text, lang)) => r matches Some(Intent::Translation { text: t, target_lang: l })
                    && t@ == text && l == lang,
                None => r is None,
            },
    {
        let cs = chars_of(input);
        let c = cs.as_slice();
        let to_at = rfind_in(c, &[' ', 't', 'o', ' ']);
        let in_at = rfind_in(c, &[' ', 'i', 'n', ' ']);
        let idx = match (to_at, in_at) {
            (Some(a), Some(b)) => if a >= b {
                a
            } else {
                b
            },
            (Some(a), None) => a,
            (None, Some(b)) => b,
            (None, None) => {
                return None;
            },
        };
        proof {
            let s = input@;
            lemma_last_from(s, seq![' ', 't', 'o', ' '], s.len() - 4);
            lemma_last_from(s, seq![' ', 'i', 'n', ' '], s.len() - 4);
            assert(idx + 4 <= s.len());
        }
        let total = cs.len();
        assert(idx + 4 <= total);
        let (a, b) = trim_bounds(c, 0, idx);
        let (d, e) = trim_bounds(c, idx + 4, total);
        assert(cs@.subrange(0, idx as int) == input@.take(idx as int));
        assert(cs@.subrange(idx + 4, cs@.len() as int) == input@.skip(idx + 4));
        if a == b || d == e {
            return None;
        }
        match language_in(c, d, e) {
            Some(lang) => {
                let text = string_of(vstd::slice::slice_subrange(c, a, b));
                Some(Intent::Translation { text, target_lang: lang })
            },
            None => None,
        }
    }
}

/// The lowercase hexadecimal digit for `d < 16`.
pub open spec fn hex_char(d: nat) -> char {
    if d < 10 {
        (48 + d) as char
    } else {
        (87 + d) as char
    }
}

/// `n` in lowercase hexadecimal, without leading zeros (`0` for zero).
pub open spec fn hex_digits(n: nat) -> Seq<char>
    decreases n,
{
    if n < 16 {
        seq![hex_char(n)]
    } else {
        hex_digits(n / 16).push(hex_char(n % 16))
    }
}

/// `n` in lowercase hexadecimal, padded with zeros to six digits.
pub open spec fn hex6(n: nat) -> Seq<char> {
    let d = hex_digits(n);
    if d.len() < 6 {
        Seq::new((6 - d.len()) as nat, |i: int| '0') + d
    } else {
        d
    }
}

/// The answer to a request, shown in the result list.
pub enum IntentResult {
    String(String),
    /// A colour as `0xRRGGBB`.
    Color(u32),
}

/// How a result reads: a string as it is, a colour as `#rrggbb`.
pub open spec fn result_text(r: IntentResult) -> Seq<char> {
    match r {
        IntentResult::String(s) => s@,
        IntentResult::Color(c) => seq!['#'] + hex6(c as nat),
    }
}

fn hex_char_exec(d: u32) -> (c: char)
    requires
        d < 16,
    ensures
        c == hex_char(d as nat),
{
    if d < 10 {
        ((48 + d) as u8) as char
    } else {
        ((87 + d) as u8) as char
    }
}

proof fn lemma_hex_digits_len(n: nat)
    ensures
        hex_digits(n).len() >= 1,
    decreases n,
{
    if n >= 16 {
        lemma_hex_digits_len(n / 16);
    }
}

impl IntentResult {
    /// The text of the result.
    pub fn to_text(&self) -> (r: String)
        ensures
            r@ == result_text(*self),
    {
        match self {
            IntentResult::String(s) => s.clone(),
            IntentResult::Color(c) => {
                let c = *c;
                let mut rev: Vec<char> = Vec::new();
                let mut n: u32 = c;
                let ghost mut done: Seq<char> = Seq::empty();
                loop
                    invariant_except_break
                        hex_digits(c as nat) == hex_digits(n as nat) + done,
                    invariant
                        rev@.len() == done.len(),
                        forall|i: int| 0 <= i < done.len() ==> #[trigger] rev@[i] == done[done.len() - 1 - i],
                    ensures
                        hex_digits(c as nat) == done,
                    decreases n,
                {
                    let d = hex_char_exec(n % 16);
                    if n < 16 {
                        rev.push(d);
                        proof {
                            done = seq![d] + done;
                            assert(hex_digits(c as nat) == done);
                        }
                        break;
                    }
                    rev.push(d);
                    proof {
                        assert(hex_digits(n as nat) == hex_digits((n / 16) as nat).push(d));
                        done = seq![d] + done;
                        assert(hex_digits(c as nat) == hex_digits((n / 16) as nat) + done);
                    }
                    n = n / 16;
                }
                let ghost digits = hex_digits(c as nat);
                let mut out = String::new();
                crate::text::push_char(&mut out, '#');
                let mut pad: usize = if rev.len() < 6 {
                    6 - rev.len()
                } else {
                    0
                };
                let ghost zeros = Seq::new(pad as nat, |i: int| '0');
                let mut z: usize = 0;
                while z < pad
                    invariant
                        z <= pad,
                        out@ == seq!['#'] + zeros.take(z as int),
                        zeros == Seq::new(pad as nat, |i: int| '0'),
                    decreases pad - z,
                {
                    crate::text::push_char(&mut out, '0');
                    assert(zeros.take(z + 1) == zeros.take(z as int).push('0'));
                    z = z + 1;
                }
                assert(zeros.take(z as int) == zeros);
                let mut k: usize = rev.len();
                while k > 0
                    invariant
                        k <= rev@.len(),
                        rev@.len() == digits.len(),
                        forall|i: int| 0 <= i < digits.len() ==> #[trigger] rev@[i] == digits[digits.len() - 1 - i],
                        out@ == seq!['#'] + zeros + digits.take(digits.len() - k),
                    decreases k,
                {
                    k = k - 1;
                    crate::text::push_char(&mut out, rev[k]);
                    assert(digits.take(digits.len() - k) == digits.take(digits.len() - k - 1).push(
                        digits[digits.len() - k - 1],
                    ));
                }
                proof {
                    assert(digits.take(digits.len() as int) == digits);
                    lemma_hex_digits_len(c as nat);
                    assert(seq!['#'] + zeros + digits == seq!['#'] + hex6(c as nat));
                }
                out
            },
        }
    }
}

} // verus!

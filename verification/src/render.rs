//! Filling `{name}` placeholders in command templates.

use vstd::prelude::*;
use crate::pango::{occurs_at, range_eq_pub};
use crate::text::{chars_of, push_char};

verus! {

/// The placeholder for `name`: `{name}`.
pub open spec fn placeholder(name: Seq<char>) -> Seq<char> {
    seq!['{'] + name + seq!['}']
}

/// `s` with every occurrence of the non-empty `pat` replaced by `val`,
/// scanning left to right without overlaps.
pub open spec fn replace_all(s: Seq<char>, pat: Seq<char>, val: Seq<char>) -> Seq<char>
    decreases s.len(),
{
    if pat.len() == 0 || s.len() == 0 {
        s
    } else if pat.len() <= s.len() && s.take(pat.len() as int) == pat {
        val + replace_all(s.skip(pat.len() as int), pat, val)
    } else {
        seq![s[0]] + replace_all(s.drop_first(), pat, val)
    }
}

proof fn lemma_replace_absent(s: Seq<char>, pat: Seq<char>, val: Seq<char>)
    requires
        forall|k: int| !occurs_at(s, pat, k),
    ensures
        replace_all(s, pat, val) == s,
    decreases s.len(),
{
    if pat.len() == 0 || s.len() == 0 {
    } else {
        assert(!occurs_at(s, pat, 0));
        assert(pat.len() <= s.len() ==> s.subrange(0, pat.len() as int) == s.take(pat.len() as int));
        let t = s.drop_first();
        assert forall|k: int| !occurs_at(t, pat, k) by {
            if occurs_at(t, pat, k) {
                assert(s.subrange(k + 1, k + 1 + pat.len()) == t.subrange(k, k + pat.len()));
                assert(occurs_at(s, pat, k + 1));
            }
        }
        lemma_replace_absent(t, pat, val);
        assert(seq![s[0]] + t == s);
    }
}

/// Replaces every `{name}` in `to` with `value`. When `to` holds no
/// `{name}`, it is returned as it is.
pub fn substitute(to: String, name: &str, value: &str) -> (r: String)
    ensures
        r@ == replace_all(to@, placeholder(name@), value@),
        (forall|k: int| !occurs_at(to@, placeholder(name@), k)) ==> r@ == to@,
{
    let cs = chars_of(to.as_str());
    let ns = chars_of(name);
    let vs = chars_of(value);
    let mut pat: Vec<char> = Vec::new();
    pat.push('{');
    let mut j: usize = 0;
    while j < ns.len()
        invariant
            j <= ns@.len(),
            pat@ == seq!['{'] + ns@.take(j as int),
        decreases ns@.len() - j,
    {
        pat.push(ns[j]);
        assert(ns@.take(j + 1) == ns@.take(j as int).push(ns@[j as int]));
        j = j + 1;
    }
    pat.push('}');
    assert(ns@.take(j as int) == ns@);
    assert(pat@ == placeholder(name@));
    let ghost s = cs@;
    let ghost p = pat@;
    let plen = pat.len();
    let n = cs.len();
    let mut out = String::new();
    let mut found = false;
    let mut i: usize = 0;
    assert(s.skip(0) == s);
    assert(out@ + replace_all(s.skip(0), p, vs@) == replace_all(s, p, vs@));
    while i < n
        invariant
            n == s.len(),
            s == cs@,
            s == to@,
            p == pat@,
            plen == p.len(),
            plen >= 2,
            vs@ == value@,
            i <= n,
            replace_all(s, p, vs@) == out@ + replace_all(s.skip(i as int), p, vs@),
            !found ==> out@ == s.take(i as int),
        decreases n - i,
    {
        let ghost rest = s.skip(i as int);
        if plen <= n - i && range_eq_pub(cs.as_slice(), i, i + plen, pat.as_slice()) {
            assert(rest.take(plen as int) == s.subrange(i as int, i + plen));
            assert(rest.skip(plen as int) == s.skip(i + plen));
            let ghost before = out@;
            let mut k: usize = 0;
            while k < vs.len()
                invariant
                    k <= vs@.len(),
                    out@ == before + vs@.take(k as int),
                decreases vs@.len() - k,
            {
                push_char(&mut out, vs[k]);
                assert(vs@.take(k + 1) == vs@.take(k as int).push(vs@[k as int]));
                k = k + 1;
            }
            assert(vs@.take(k as int) == vs@);
            found = true;
            i = i + plen;
        } else {
            assert(plen <= n - i ==> rest.take(plen as int) == s.subrange(i as int, i + plen));
            assert(rest.drop_first() == s.skip(i + 1));
            assert(s.take(i + 1) == s.take(i as int).push(s[i as int]));
            push_char(&mut out, cs[i]);
            i = i + 1;
        }
    }
    assert(s.skip(i as int).len() == 0);
    proof {
        if forall|k: int| !occurs_at(to@, placeholder(name@), k) {
            lemma_replace_absent(s, p, vs@);
        }
    }
    if found {
        out
    } else {
        assert(s.take(i as int) == s);
        to
    }
}

} // verus!

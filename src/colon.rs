//! Escaping of bin names and keys, so that `escape(bin)::escape(key)` can be
//! split back into its two parts without ambiguity.

use vstd::prelude::*;

verus! {

/// The escaped form of one character: `|` becomes `||`, `:` becomes `|;`.
pub open spec fn escape_char(c: char) -> Seq<char> {
    if c == '|' {
        seq!['|', '|']
    } else if c == ':' {
        seq!['|', ';']
    } else {
        seq![c]
    }
}

/// The escaped form of a string, character by character.
pub open spec fn escape_seq(s: Seq<char>) -> Seq<char>
    decreases s.len(),
{
    if s.len() == 0 {
        Seq::empty()
    } else {
        escape_char(s[0]) + escape_seq(s.subrange(1, s.len() as int))
    }
}

/// Reverses `escape_seq`: `||` reads as `|`, `|;` as `:`, anything else as itself.
pub open spec fn unescape_seq(s: Seq<char>) -> Seq<char>
    decreases s.len(),
{
    if s.len() == 0 {
        Seq::empty()
    } else if s.len() >= 2 && s[0] == '|' && s[1] == ';' {
        seq![':'] + unescape_seq(s.subrange(2, s.len() as int))
    } else if s.len() >= 2 && s[0] == '|' && s[1] == '|' {
        seq!['|'] + unescape_seq(s.subrange(2, s.len() as int))
    } else {
        seq![s[0]] + unescape_seq(s.subrange(1, s.len() as int))
    }
}

pub open spec fn has_colon(s: Seq<char>) -> bool {
    exists|i: int| 0 <= i < s.len() && s[i] == ':'
}

pub proof fn lemma_escape_concat(a: Seq<char>, b: Seq<char>)
    ensures
        escape_seq(a + b) == escape_seq(a) + escape_seq(b),
    decreases a.len(),
{
    if a.len() == 0 {
        assert(a + b =~= b);
    } else {
        assert((a + b).subrange(1, (a + b).len() as int) =~= a.subrange(1, a.len() as int) + b);
        lemma_escape_concat(a.subrange(1, a.len() as int), b);
        assert(escape_seq(a + b) =~= escape_seq(a) + escape_seq(b));
    }
}

/// An escaped string holds no colon.
pub proof fn lemma_escape_no_colon(s: Seq<char>)
    ensures
        !has_colon(escape_seq(s)),
    decreases s.len(),
{
    if s.len() > 0 {
        lemma_escape_no_colon(s.subrange(1, s.len() as int));
        let head = escape_char(s[0]);
        let tail = escape_seq(s.subrange(1, s.len() as int));
        assert forall|i: int| 0 <= i < escape_seq(s).len() implies escape_seq(s)[i] != ':' by {
            if i >= head.len() {
                assert(escape_seq(s)[i] == tail[i - head.len()]);
            }
        }
    }
}

/// Unescaping undoes escaping.
pub proof fn lemma_unescape_escape(s: Seq<char>)
    ensures
        unescape_seq(escape_seq(s)) == s,
    decreases s.len(),
{
    if s.len() > 0 {
        let rest = s.subrange(1, s.len() as int);
        lemma_unescape_escape(rest);
        let e = escape_seq(s);
        let head = escape_char(s[0]);
        assert(e == head + escape_seq(rest));
        if s[0] == '|' || s[0] == ':' {
            assert(e.subrange(2, e.len() as int) =~= escape_seq(rest));
        } else {
            assert(e.subrange(1, e.len() as int) =~= escape_seq(rest));
        }
        assert(unescape_seq(e) =~= s);
    }
}

/// Escaping is one-to-one.
pub proof fn lemma_escape_injective(a: Seq<char>, b: Seq<char>)
    requires
        escape_seq(a) == escape_seq(b),
    ensures
        a == b,
{
    lemma_unescape_escape(a);
    lemma_unescape_escape(b);
}

/// Escapes `s` so that it holds no colon.
pub fn escape(s: &str) -> (r: String)
    ensures
        r@ == escape_seq(s@),
{
    let n = s.unicode_len();
    let mut out = String::new();
    let mut i: usize = 0;
    while i < n
        invariant
            n == s@.len(),
            i <= n,
            out@ == escape_seq(s@.subrange(0, i as int)),
        decreases n - i,
    {
        let c = s.get_char(i);
        proof {
            lemma_escape_concat(s@.subrange(0, i as int), seq![c]);
            assert(s@.subrange(0, i + 1) =~= s@.subrange(0, i as int) + seq![c]);
            assert(seq![c].subrange(1, 1) =~= Seq::<char>::empty());
            assert(escape_seq(Seq::<char>::empty()) == Seq::<char>::empty());
            assert(escape_seq(seq![c]) =~= escape_char(c) + Seq::<char>::empty());
            assert(escape_seq(seq![c]) =~= escape_char(c));
        }
        if c == '|' {
            proof { reveal_strlit("||"); }
            out.append("||");
        } else if c == ':' {
            proof { reveal_strlit("|;"); }
            out.append("|;");
        } else {
            out.append(s.substring_char(i, i + 1));
        }
        i = i + 1;
    }
    proof {
        assert(s@.subrange(0, n as int) =~= s@);
    }
    out
}

/// Reverses `escape`.
pub fn unescape(s: &str) -> (r: String)
    ensures
        r@ == unescape_seq(s@),
{
    let n = s.unicode_len();
    let mut out = String::new();
    let mut i: usize = 0;
    proof {
        assert(s@.subrange(0, n as int) =~= s@);
        assert(out@ + unescape_seq(s@) =~= unescape_seq(s@));
    }
    while i < n
        invariant
            n == s@.len(),
            i <= n,
            out@ + unescape_seq(s@.subrange(i as int, n as int)) == unescape_seq(s@),
        decreases n - i,
    {
        let ghost rest = s@.subrange(i as int, n as int);
        let c = s.get_char(i);
        let pair = i + 1 < n && c == '|';
        if pair {
            let d = s.get_char(i + 1);
            if d == ';' || d == '|' {
                proof {
                    assert(rest.subrange(2, rest.len() as int) =~= s@.subrange(i + 2, n as int));
                }
                if d == ';' {
                    proof { reveal_strlit(":"); }
                    out.append(":");
                } else {
                    proof { reveal_strlit("|"); }
                    out.append("|");
                }
                i = i + 2;
                proof {
                    assert(out@ + unescape_seq(s@.subrange(i as int, n as int)) =~= unescape_seq(s@));
                }
                continue;
            }
        }
        proof {
            assert(rest.subrange(1, rest.len() as int) =~= s@.subrange(i + 1, n as int));
        }
        out.append(s.substring_char(i, i + 1));
        i = i + 1;
        proof {
            assert(out@ + unescape_seq(s@.subrange(i as int, n as int)) =~= unescape_seq(s@));
        }
    }
    proof {
        assert(s@.subrange(n as int, n as int) =~= Seq::<char>::empty());
        assert(out@ + Seq::<char>::empty() =~= out@);
    }
    out
}

/// Index of the first colon of `s`, or its length when it has none.
pub open spec fn first_colon(s: Seq<char>) -> int
    decreases s.len(),
{
    if s.len() == 0 || s[0] == ':' {
        0
    } else {
        1 + first_colon(s.subrange(1, s.len() as int))
    }
}

/// The key under which `key` of bin `name` is stored on a backend.
pub open spec fn bin_key_seq(name: Seq<char>, key: Seq<char>) -> Seq<char> {
    escape_seq(name) + seq![':', ':'] + escape_seq(key)
}

/// The bin name that a stored key belongs to: the unescaped text before its
/// first colon (the whole key when it has none).
pub open spec fn bin_part(s: Seq<char>) -> Seq<char> {
    unescape_seq(s.subrange(0, first_colon(s)))
}

/// The key within its bin: the unescaped text after the first `::`.
pub open spec fn key_part(s: Seq<char>) -> Seq<char> {
    let p = first_colon(s);
    if p + 2 <= s.len() {
        unescape_seq(s.subrange(p + 2, s.len() as int))
    } else {
        Seq::empty()
    }
}

pub proof fn lemma_first_colon(s: Seq<char>, p: int)
    requires
        0 <= p <= s.len(),
        p == s.len() || s[p] == ':',
        forall|i: int| 0 <= i < p ==> s[i] != ':',
    ensures
        first_colon(s) == p,
    decreases p,
{
    if p > 0 {
        let t = s.subrange(1, s.len() as int);
        assert forall|i: int| 0 <= i < p - 1 implies t[i] != ':' by {
            assert(t[i] == s[i + 1]);
        }
        lemma_first_colon(t, p - 1);
    }
}

/// Keys of distinct bins, or distinct keys of one bin, are stored under
/// distinct names: no bin sees what another bin wrote.
pub proof fn lemma_bin_key_injective(n1: Seq<char>, k1: Seq<char>, n2: Seq<char>, k2: Seq<char>)
    requires
        bin_key_seq(n1, k1) == bin_key_seq(n2, k2),
    ensures
        n1 == n2,
        k1 == k2,
{
    let e1 = escape_seq(n1);
    let e2 = escape_seq(n2);
    let s = bin_key_seq(n1, k1);
    lemma_escape_no_colon(n1);
    lemma_escape_no_colon(n2);
    if e1.len() < e2.len() {
        assert(s[e1.len() as int] == ':');
        assert(bin_key_seq(n2, k2)[e1.len() as int] == e2[e1.len() as int]);
    }
    if e2.len() < e1.len() {
        assert(bin_key_seq(n2, k2)[e2.len() as int] == ':');
        assert(s[e2.len() as int] == e1[e2.len() as int]);
    }
    assert(e1.len() == e2.len());
    assert(e1 =~= s.subrange(0, e1.len() as int));
    assert(e2 =~= bin_key_seq(n2, k2).subrange(0, e1.len() as int));
    assert(escape_seq(k1) =~= s.subrange(e1.len() as int + 2, s.len() as int));
    assert(escape_seq(k2) =~= bin_key_seq(n2, k2).subrange(e1.len() as int + 2, s.len() as int));
    lemma_escape_injective(n1, n2);
    lemma_escape_injective(k1, k2);
}

/// Splitting a stored key gives back the bin name and the key.
pub proof fn lemma_split_bin_key(name: Seq<char>, key: Seq<char>)
    ensures
        bin_part(bin_key_seq(name, key)) == name,
        key_part(bin_key_seq(name, key)) == key,
{
    let e = escape_seq(name);
    let s = bin_key_seq(name, key);
    lemma_escape_no_colon(name);
    assert forall|i: int| 0 <= i < e.len() implies s[i] != ':' by {
        assert(s[i] == e[i]);
    }
    lemma_first_colon(s, e.len() as int);
    assert(s.subrange(0, e.len() as int) =~= e);
    assert(s.subrange(e.len() as int + 2, s.len() as int) =~= escape_seq(key));
    lemma_unescape_escape(name);
    lemma_unescape_escape(key);
}

/// The key under which `key` of bin `name` is stored: `escape(name)::escape(key)`.
pub fn bin_key(name: &str, key: &str) -> (r: String)
    ensures
        r@ == bin_key_seq(name@, key@),
{
    let mut r = escape(name);
    proof { reveal_strlit("::"); }
    r.append("::");
    let k = escape(key);
    r.append(k.as_str());
    proof {
        assert(r@ =~= bin_key_seq(name@, key@));
    }
    r
}

/// Index of the first colon of `s`, or its length.
fn find_colon(s: &str) -> (r: usize)
    ensures
        r == first_colon(s@),
{
    let n = s.unicode_len();
    let mut i: usize = 0;
    while i < n
        invariant
            n == s@.len(),
            i <= n,
            forall|j: int| 0 <= j < i ==> s@[j] != ':',
        decreases n - i,
    {
        if s.get_char(i) == ':' {
            proof { lemma_first_colon(s@, i as int); }
            return i;
        }
        i = i + 1;
    }
    proof { lemma_first_colon(s@, n as int); }
    n
}

/// Splits a stored key into its bin name and its key, both unescaped.
pub fn split_bin_key(s: &str) -> (r: (String, String))
    ensures
        r.0@ == bin_part(s@),
        r.1@ == key_part(s@),
{
    let n = s.unicode_len();
    let p = find_colon(s);
    proof {
        assert(0 <= first_colon(s@) <= s@.len()) by {
            lemma_first_colon_bound(s@);
        }
    }
    let name = unescape(s.substring_char(0, p));
    if p < n && n - p >= 2 {
        let key = unescape(s.substring_char(p + 2, n));
        (name, key)
    } else {
        (name, String::new())
    }
}

pub proof fn lemma_first_colon_bound(s: Seq<char>)
    ensures
        0 <= first_colon(s) <= s.len(),
    decreases s.len(),
{
    if s.len() > 0 && s[0] != ':' {
        lemma_first_colon_bound(s.subrange(1, s.len() as int));
    }
}

} // verus!

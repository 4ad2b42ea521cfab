//! The lexical scanner: lower-casing the message, splitting it on
//! ASCII whitespace, and stripping trailing punctuation from tokens.

use vstd::prelude::*;

verus! {

/// The ASCII whitespace characters that separate tokens.
pub open spec fn is_scan_ws(c: char) -> bool {
    c == ' ' || c == '\t' || c == '\n' || c == '\r' || c == '\u{c}'
}

fn is_scan_ws_exec(c: char) -> (r: bool)
    ensures
        r == is_scan_ws(c),
{
    c == ' ' || c == '\t' || c == '\n' || c == '\r' || c == '\u{c}'
}

/// ASCII lower-casing of one character; other characters stay as
/// they are.
pub open spec fn spec_lower_char(c: char) -> char {
    if 'A' <= c && c <= 'Z' {
        ((c as int) + 32) as char
    } else {
        c
    }
}

/// The message lower-cased character by character.
pub open spec fn spec_lower(s: Seq<char>) -> Seq<char> {
    s.map_values(|c: char| spec_lower_char(c))
}

fn lower_char(c: char) -> (r: char)
    ensures
        r == spec_lower_char(c),
{
    match c {
        'A' => 'a',
        'B' => 'b',
        'C' => 'c',
        'D' => 'd',
        'E' => 'e',
        'F' => 'f',
        'G' => 'g',
        'H' => 'h',
        'I' => 'i',
        'J' => 'j',
        'K' => 'k',
        'L' => 'l',
        'M' => 'm',
        'N' => 'n',
        'O' => 'o',
        'P' => 'p',
        'Q' => 'q',
        'R' => 'r',
        'S' => 's',
        'T' => 't',
        'U' => 'u',
        'V' => 'v',
        'W' => 'w',
        'X' => 'x',
        'Y' => 'y',
        'Z' => 'z',
        _ => c,
    }
}

/// Lower-cases the whole message into a character vector.
pub fn lower_chars(s: &str) -> (r: Vec<char>)
    ensures
        r@ == spec_lower(s@),
{
    let n = s.unicode_len();
    let mut out: Vec<char> = Vec::new();
    let mut i: usize = 0;
    while i < n
        invariant
            i <= n,
            n == s@.len(),
            out@ == spec_lower(s@).take(i as int),
        decreases n - i,
    {
        let c = s.get_char(i);
        out.push(lower_char(c));
        proof {
            assert(spec_lower(s@)[i as int] == spec_lower_char(s@[i as int]));
            assert(spec_lower(s@).take(i as int + 1) =~= spec_lower(s@).take(i as int).push(
                spec_lower(s@)[i as int]));
        }
        i = i + 1;
    }
    proof {
        assert(spec_lower(s@).take(n as int) =~= spec_lower(s@));
    }
    out
}

/// The tokens and the currently open token after scanning a prefix
/// of the message.
pub open spec fn tokenize_state(s: Seq<char>) -> (Seq<Seq<char>>, Seq<char>)
    decreases s.len(),
{
    if s.len() == 0 {
        (Seq::empty(), Seq::empty())
    } else {
        let prev = tokenize_state(s.drop_last());
        let c = s.last();
        if is_scan_ws(c) {
            if prev.1.len() > 0 {
                (prev.0.push(prev.1), Seq::empty())
            } else {
                (prev.0, Seq::empty())
            }
        } else {
            (prev.0, prev.1.push(c))
        }
    }
}

/// The whitespace-delimited tokens of the message, in order.
pub open spec fn spec_tokenize(s: Seq<char>) -> Seq<Seq<char>> {
    let st = tokenize_state(s);
    if st.1.len() > 0 {
        st.0.push(st.1)
    } else {
        st.0
    }
}

/// `sub` occurs contiguously somewhere in `s`.
pub open spec fn contains_seq(s: Seq<char>, sub: Seq<char>) -> bool {
    exists|a: int|
        0 <= a && a + sub.len() <= s.len() && #[trigger] s.subrange(a, a + sub.len()) == sub
}

/// Every closed token of a message occurs contiguously in the
/// message, and the open token is a suffix of it.
pub proof fn lemma_tokenize_state_substrings(s: Seq<char>)
    ensures
        forall|k: int|
            0 <= k < tokenize_state(s).0.len() ==> contains_seq(
                s, #[trigger] tokenize_state(s).0[k]),
        tokenize_state(s).1.len() <= s.len(),
        tokenize_state(s).1 == s.subrange(
            s.len() - tokenize_state(s).1.len(), s.len() as int),
    decreases s.len(),
{
    if s.len() == 0 {
        assert(tokenize_state(s).1 =~= s.subrange(0, 0));
    } else {
        let d = s.drop_last();
        lemma_tokenize_state_substrings(d);
        let prev = tokenize_state(d);
        let st = tokenize_state(s);
        let dl = d.len() as int;
        assert forall|sub: Seq<char>| contains_seq(d, sub) implies contains_seq(s, sub) by {
            let a = choose|a: int|
                0 <= a && a + sub.len() <= d.len() && #[trigger] d.subrange(
                    a, a + sub.len()) == sub;
            assert(s.subrange(a, a + sub.len()) =~= d.subrange(a, a + sub.len()));
        }
        assert(contains_seq(d, prev.1)) by {
            assert(0 <= dl - prev.1.len() && (dl - prev.1.len()) + prev.1.len() <= d.len()
                && d.subrange(dl - prev.1.len(), dl - prev.1.len() + prev.1.len())
                == prev.1);
        }
        assert forall|k: int| 0 <= k < st.0.len() implies contains_seq(
            s, #[trigger] st.0[k]) by {
            if k < prev.0.len() {
                assert(st.0[k] == prev.0[k]);
            } else {
                assert(st.0[k] == prev.1);
            }
        }
        let c = s.last();
        if is_scan_ws(c) {
            assert(st.1 =~= s.subrange(s.len() as int, s.len() as int));
        } else {
            assert(st.1 =~= s.subrange(s.len() - st.1.len(), s.len() as int)) by {
                assert(prev.1 == d.subrange(dl - prev.1.len(), dl));
                assert forall|j: int| 0 <= j < st.1.len() implies st.1[j] == s.subrange(
                    s.len() - st.1.len(), s.len() as int)[j] by {
                    if j < prev.1.len() {
                        assert(prev.1[j] == d[dl - prev.1.len() + j]);
                    }
                }
            }
        }
    }
}

/// Splits the lower-cased message into its whitespace-delimited
/// tokens.
pub fn tokenize(s: &Vec<char>) -> (r: Vec<Vec<char>>)
    ensures
        r.deep_view() == spec_tokenize(s@),
        forall|k: int| 0 <= k < r.deep_view().len() ==> contains_seq(s@, r.deep_view()[k]),
{
    let n = s.len();
    let mut toks: Vec<Vec<char>> = Vec::new();
    let mut cur: Vec<char> = Vec::new();
    let mut i: usize = 0;
    while i < n
        invariant
            i <= n,
            n == s@.len(),
            (toks.deep_view(), cur@) == tokenize_state(s@.take(i as int)),
        decreases n - i,
    {
        let c = s[i];
        proof {
            assert(s@.take(i as int + 1).drop_last() =~= s@.take(i as int));
            assert(s@.take(i as int + 1).last() == s@[i as int]);
        }
        if is_scan_ws_exec(c) {
            if cur.len() > 0 {
                let done = cur;
                cur = Vec::new();
                toks.push(done);
            }
        } else {
            cur.push(c);
        }
        proof {
            assert(toks.deep_view() =~~= tokenize_state(s@.take(i as int + 1)).0);
            assert(cur@ =~= tokenize_state(s@.take(i as int + 1)).1);
        }
        i = i + 1;
    }
    proof {
        assert(s@.take(n as int) =~= s@);
    }
    if cur.len() > 0 {
        toks.push(cur);
    }
    proof {
        assert(toks.deep_view() =~~= spec_tokenize(s@));
        lemma_tokenize_state_substrings(s@);
        assert forall|k: int| 0 <= k < toks.deep_view().len() implies contains_seq(
            s@, toks.deep_view()[k]) by {
            let st = tokenize_state(s@);
            if st.1.len() > 0 && k == st.0.len() {
                assert(toks.deep_view()[k] == st.1);
                let a = s@.len() - st.1.len();
                assert(s@.subrange(a, a + st.1.len()) == st.1);
            } else {
                assert(toks.deep_view()[k] == st.0[k]);
            }
        }
    }
    toks
}

/// The characters the scanner strips from the end of a token before
/// matching it against the alias table.
pub open spec fn is_strippable(c: char) -> bool {
    c == ',' || c == '.' || c == '/' || c == ';' || c == ':' || c == '|' || c == '"'
        || c == '\'' || c == '\\'
}

fn is_strippable_exec(c: char) -> (r: bool)
    ensures
        r == is_strippable(c),
{
    c == ',' || c == '.' || c == '/' || c == ';' || c == ':' || c == '|' || c == '"'
        || c == '\'' || c == '\\'
}

/// The token with its rightmost run of strippable characters
/// removed.
pub open spec fn spec_strip(t: Seq<char>) -> Seq<char>
    decreases t.len(),
{
    if t.len() > 0 && is_strippable(t.last()) {
        spec_strip(t.drop_last())
    } else {
        t
    }
}

/// Strips the rightmost run of punctuation from a token.
pub fn strip_token(t: &Vec<char>) -> (r: Vec<char>)
    ensures
        r@ == spec_strip(t@),
{
    let mut end = t.len();
    proof {
        assert(t@.take(end as int) =~= t@);
    }
    while end > 0 && is_strippable_exec(t[end - 1])
        invariant
            end <= t.len(),
            spec_strip(t@) == spec_strip(t@.take(end as int)),
        decreases end,
    {
        proof {
            assert(t@.take(end as int).drop_last() =~= t@.take(end as int - 1));
        }
        end = end - 1;
    }
    let mut r: Vec<char> = Vec::new();
    let mut i: usize = 0;
    while i < end
        invariant
            i <= end <= t.len(),
            spec_strip(t@) == spec_strip(t@.take(end as int)),
            !(end > 0 && is_strippable(t@[end as int - 1])),
            r@ == t@.take(i as int),
        decreases end - i,
    {
        r.push(t[i]);
        proof {
            assert(t@.take(i as int + 1) =~= t@.take(i as int).push(t@[i as int]));
        }
        i = i + 1;
    }
    proof {
        assert(spec_strip(t@.take(end as int)) == t@.take(end as int));
    }
    r
}

/// The stripped token is a prefix of the token.
pub proof fn lemma_strip_prefix(t: Seq<char>)
    ensures
        spec_strip(t).len() <= t.len(),
        spec_strip(t) == t.subrange(0, spec_strip(t).len() as int),
    decreases t.len(),
{
    if t.len() > 0 && is_strippable(t.last()) {
        lemma_strip_prefix(t.drop_last());
        assert(t.drop_last().subrange(0, spec_strip(t).len() as int) =~= t.subrange(
            0, spec_strip(t).len() as int));
    } else {
        assert(t.subrange(0, t.len() as int) =~= t);
    }
}

/// Whether `needle` occurs contiguously in `hay`.
pub fn contains_str(hay: &Vec<char>, needle: &str) -> (r: bool)
    ensures
        r == contains_seq(hay@, needle@),
{
    let n = hay.len();
    let m = needle.unicode_len();
    if m > n {
        return false;
    }
    let mut a: usize = 0;
    while a <= n - m
        invariant
            m <= n,
            n == hay@.len(),
            m == needle@.len(),
            a <= n - m + 1,
            forall|b: int|
                0 <= b < a ==> #[trigger] hay@.subrange(b, b + m as int) != needle@,
        decreases n - m + 1 - a,
    {
        let mut i: usize = 0;
        let mut hit = true;
        while hit && i < m
            invariant
                i <= m,
                a + m <= n,
                n == hay@.len(),
                m == needle@.len(),
                hit ==> forall|j: int| 0 <= j < i ==> hay@[a + j] == needle@[j],
                !hit ==> i < m && hay@[a + i] != needle@[i as int],
            decreases m - i + (if hit { 1int } else { 0int }),
        {
            if hay[a + i] != needle.get_char(i) {
                hit = false;
            } else {
                i = i + 1;
            }
        }
        if hit {
            proof {
                assert(hay@.subrange(a as int, a as int + m as int) =~= needle@);
            }
            return true;
        }
        proof {
            assert(hay@.subrange(a as int, a as int + m as int)[i as int] == hay@[
                a as int + i as int]);
        }
        a = a + 1;
    }
    proof {
        assert forall|b: int| 0 <= b && b + m as int <= n implies #[trigger] hay@.subrange(
            b, b + m as int) != needle@ by {
            assert(b < a);
        }
    }
    false
}

/// Every token the scanner produces occurs contiguously in the
/// message it scanned.
pub proof fn lemma_tokens_contained(s: Seq<char>)
    ensures
        forall|k: int|
            0 <= k < spec_tokenize(s).len() ==> contains_seq(s, #[trigger] spec_tokenize(s)[k]),
{
    lemma_tokenize_state_substrings(s);
    let st = tokenize_state(s);
    assert forall|k: int| 0 <= k < spec_tokenize(s).len() implies contains_seq(
        s, #[trigger] spec_tokenize(s)[k]) by {
        if st.1.len() > 0 && k == st.0.len() {
            assert(spec_tokenize(s)[k] == st.1);
            let a = s.len() - st.1.len();
            assert(s.subrange(a, a + st.1.len()) == st.1);
        } else {
            assert(spec_tokenize(s)[k] == st.0[k]);
        }
    }
}

} // verus!

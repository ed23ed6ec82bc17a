//! SQL `LIKE` pattern matching, as SQLite defines it: `%` matches any run of
//! characters, `_` matches any one character, and every other character
//! matches itself, upper and lower case of ASCII letters alike.
use vstd::prelude::*;

verus! {

/// The code of a character after ASCII lower-casing; other characters keep
/// their code.
pub open spec fn ascii_lower(c: char) -> int {
    if 'A' <= c && c <= 'Z' {
        (c as u32) + 32int
    } else {
        c as int
    }
}

fn ascii_lower_exec(c: char) -> (res: u32)
    ensures
        res == ascii_lower(c),
{
    if 'A' <= c && c <= 'Z' {
        c as u32 + 32
    } else {
        c as u32
    }
}

/// Whether text `s` matches pattern `p`.
pub open spec fn like_match(p: Seq<char>, s: Seq<char>) -> bool
    decreases p.len(), s.len(),
{
    if p.len() == 0 {
        s.len() == 0
    } else if p[0] == '%' {
        like_match(p.drop_first(), s) || (s.len() > 0 && like_match(p, s.drop_first()))
    } else if s.len() == 0 {
        false
    } else if p[0] == '_' || ascii_lower(p[0]) == ascii_lower(s[0]) {
        like_match(p.drop_first(), s.drop_first())
    } else {
        false
    }
}

/// Whether text `s` matches pattern `p`, by dynamic programming over the
/// suffixes of both.
pub fn like(p: &Vec<char>, s: &Vec<char>) -> (res: bool)
    ensures
        res == like_match(p@, s@),
{
    let pl = p.len();
    let sl = s.len();
    // next[k] holds whether s[k..] matches p[i..], starting with i == pl
    let mut next: Vec<bool> = Vec::new();
    let mut j: usize = 0;
    while j < sl
        invariant
            sl == s@.len(),
            pl == p@.len(),
            j <= sl,
            next.len() == j,
            forall|k: int| 0 <= k < j ==> next[k] == like_match(p@.skip(pl as int), s@.skip(k)),
        decreases sl - j,
    {
        assert(p@.skip(pl as int).len() == 0);
        next.push(false);
        j = j + 1;
    }
    next.push(true);
    assert(s@.skip(sl as int).len() == 0);
    let mut i: usize = pl;
    while i > 0
        invariant
            sl == s@.len(),
            pl == p@.len(),
            i <= pl,
            next.len() == sl + 1,
            forall|k: int| 0 <= k <= sl ==> next[k] == like_match(p@.skip(i as int), s@.skip(k)),
        decreases i,
    {
        let pi = i - 1;
        let pc = p[pi];
        let ghost pat = p@.skip(pi as int);
        assert(pat.drop_first() =~= p@.skip(i as int));
        assert(pat[0] == pc);
        let mut cur: Vec<bool> = Vec::new();
        let mut t: usize = 0;
        while t < sl
            invariant
                t <= sl,
                cur.len() == t,
            decreases sl - t,
        {
            cur.push(false);
            t = t + 1;
        }
        cur.push(false);
        // the empty rest of the text
        let ghost empty_txt = s@.skip(sl as int);
        assert(empty_txt.len() == 0);
        let last = if pc == '%' { next[sl] } else { false };
        cur.set(sl, last);
        let mut k: usize = sl;
        while k > 0
            invariant
                sl == s@.len(),
                pl == p@.len(),
                pi < pl,
                pat == p@.skip(pi as int),
                pat.drop_first() == p@.skip(pi + 1),
                pat[0] == pc,
                k <= sl,
                next.len() == sl + 1,
                cur.len() == sl + 1,
                forall|m: int| 0 <= m <= sl ==> next[m] == like_match(p@.skip(pi + 1), s@.skip(m)),
                forall|m: int| k <= m <= sl ==> cur[m] == like_match(pat, s@.skip(m)),
            decreases k,
        {
            let q = k - 1;
            let ghost txt = s@.skip(q as int);
            assert(txt.drop_first() =~= s@.skip(q + 1));
            let sc = s[q];
            assert(txt[0] == sc);
            let v = if pc == '%' {
                next[q] || cur[q + 1]
            } else {
                (pc == '_' || ascii_lower_exec(pc) == ascii_lower_exec(sc)) && next[q + 1]
            };
            cur.set(q, v);
            k = q;
        }
        next = cur;
        i = pi;
    }
    assert(p@.skip(0) =~= p@);
    assert(s@.skip(0) =~= s@);
    next[0]
}

/// A pattern character that stands for itself: neither `%` nor `_`.
pub open spec fn is_literal(c: char) -> bool {
    c != '%' && c != '_'
}

/// `b` is `a` with some ASCII letters in the other case.
pub open spec fn same_but_ascii_case(a: Seq<char>, b: Seq<char>) -> bool {
    &&& a.len() == b.len()
    &&& forall|i: int|
        0 <= i < a.len() ==> (#[trigger] a[i] == b[i] || (('a' <= a[i] <= 'z' || 'A' <= a[i] <= 'Z') && ('a' <= b[i]
            <= 'z' || 'A' <= b[i] <= 'Z') && (a[i] as int - b[i] as int == 32 || b[i] as int - a[i] as int == 32)))
}

proof fn lemma_same_case_tail(a: Seq<char>, b: Seq<char>)
    requires
        same_but_ascii_case(a, b),
        a.len() > 0,
    ensures
        same_but_ascii_case(a.drop_first(), b.drop_first()),
        a[0] == '%' <==> b[0] == '%',
        a[0] == '_' <==> b[0] == '_',
        ascii_lower(a[0]) == ascii_lower(b[0]),
{
    assert(a[0] == b[0] || (('a' <= a[0] <= 'z' || 'A' <= a[0] <= 'Z') && ('a' <= b[0] <= 'z' || 'A' <= b[0]
        <= 'Z') && (a[0] as int - b[0] as int == 32 || b[0] as int - a[0] as int == 32)));
    assert forall|i: int| 0 <= i < a.len() - 1 implies (#[trigger] a.drop_first()[i] == b.drop_first()[i] || ((
    'a' <= a.drop_first()[i] <= 'z' || 'A' <= a.drop_first()[i] <= 'Z') && ('a' <= b.drop_first()[i] <= 'z' || 'A'
        <= b.drop_first()[i] <= 'Z') && (a.drop_first()[i] as int - b.drop_first()[i] as int == 32
        || b.drop_first()[i] as int - a.drop_first()[i] as int == 32))) by {
        assert(a.drop_first()[i] == a[i + 1] && b.drop_first()[i] == b[i + 1]);
        assert(a[i + 1] == b[i + 1] || (('a' <= a[i + 1] <= 'z' || 'A' <= a[i + 1] <= 'Z') && ('a' <= b[i + 1]
            <= 'z' || 'A' <= b[i + 1] <= 'Z') && (a[i + 1] as int - b[i + 1] as int == 32 || b[i + 1] as int
            - a[i + 1] as int == 32)));
    }
}

/// Matching ignores the case of ASCII letters in the pattern and in the
/// text: changing the case of letters on either side changes nothing.
pub proof fn law_like_ignores_ascii_case(p: Seq<char>, q: Seq<char>, s: Seq<char>, t: Seq<char>)
    requires
        same_but_ascii_case(p, q),
        same_but_ascii_case(s, t),
    ensures
        like_match(p, s) == like_match(q, t),
    decreases p.len(), s.len(),
{
    if p.len() > 0 {
        lemma_same_case_tail(p, q);
        if p[0] == '%' {
            law_like_ignores_ascii_case(p.drop_first(), q.drop_first(), s, t);
            if s.len() > 0 {
                lemma_same_case_tail(s, t);
                law_like_ignores_ascii_case(p, q, s.drop_first(), t.drop_first());
            }
        } else if s.len() > 0 {
            lemma_same_case_tail(s, t);
            law_like_ignores_ascii_case(p.drop_first(), q.drop_first(), s.drop_first(), t.drop_first());
        }
    }
}

/// A pattern without `%` or `_` matches itself.
pub proof fn law_like_literal_matches_itself(p: Seq<char>)
    requires
        forall|i: int| 0 <= i < p.len() ==> is_literal(#[trigger] p[i]),
    ensures
        like_match(p, p),
    decreases p.len(),
{
    if p.len() > 0 {
        assert(is_literal(p[0]));
        assert forall|i: int| 0 <= i < p.drop_first().len() implies is_literal(#[trigger] p.drop_first()[i]) by {
            assert(p.drop_first()[i] == p[i + 1]);
            assert(is_literal(p[i + 1]));
        }
        law_like_literal_matches_itself(p.drop_first());
    }
}

proof fn lemma_percent_matches_all(s: Seq<char>)
    ensures
        like_match(seq!['%'], s),
    decreases s.len(),
{
    let pc = seq!['%'];
    assert(pc.drop_first() =~= Seq::<char>::empty());
    assert(pc.len() == 1 && pc[0] == '%');
    if s.len() > 0 {
        lemma_percent_matches_all(s.drop_first());
    } else {
        assert(like_match(pc.drop_first(), s));
    }
}

proof fn lemma_literal_prefix(p: Seq<char>, r: Seq<char>, t: Seq<char>)
    requires
        forall|i: int| 0 <= i < p.len() ==> is_literal(#[trigger] p[i]),
        like_match(r, t),
    ensures
        like_match(p + r, p + t),
    decreases p.len(),
{
    if p.len() > 0 {
        assert(is_literal(p[0]));
        assert forall|i: int| 0 <= i < p.drop_first().len() implies is_literal(#[trigger] p.drop_first()[i]) by {
            assert(p.drop_first()[i] == p[i + 1]);
            assert(is_literal(p[i + 1]));
        }
        lemma_literal_prefix(p.drop_first(), r, t);
        assert((p + r).drop_first() =~= p.drop_first() + r);
        assert((p + t).drop_first() =~= p.drop_first() + t);
        assert((p + r)[0] == p[0] && (p + t)[0] == p[0]);
    }
}

proof fn lemma_percent_skips(q: Seq<char>, a: Seq<char>, t: Seq<char>)
    requires
        like_match(q, t),
    ensures
        like_match(seq!['%'] + q, a + t),
    decreases a.len(),
{
    let pq = seq!['%'] + q;
    assert(pq.drop_first() =~= q);
    if a.len() == 0 {
        assert(a + t =~= t);
    } else {
        lemma_percent_skips(q, a.drop_first(), t);
        assert((a + t).drop_first() =~= a.drop_first() + t);
    }
}

/// A pattern `%p%` with `p` free of `%` and `_` matches every text that
/// holds `p`: this is how a search finds a word anywhere in a command.
pub proof fn law_like_finds_substring(p: Seq<char>, a: Seq<char>, b: Seq<char>)
    requires
        forall|i: int| 0 <= i < p.len() ==> is_literal(#[trigger] p[i]),
    ensures
        like_match(seq!['%'] + p + seq!['%'], a + p + b),
{
    lemma_percent_matches_all(b);
    lemma_literal_prefix(p, seq!['%'], b);
    lemma_percent_skips(p + seq!['%'], a, p + b);
    assert(seq!['%'] + p + seq!['%'] =~= seq!['%'] + (p + seq!['%']));
    assert(a + p + b =~= a + (p + b));
}

} // verus!

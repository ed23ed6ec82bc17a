//! String helpers over the character-sequence view of `str` and `String`.
use vstd::prelude::*;

verus! {


/// `String::push`: appends one character.
#[verifier::external_body]
pub(crate) fn push_char(s: &mut String, c: char)
    ensures
        final(s)@ == old(s)@.push(c),
{
    s.push(c)
}

/// Whether two string slices hold the same characters.
pub fn str_eq(a: &str, b: &str) -> (res: bool)
    ensures
        res == (a@ == b@),
{
    let n = a.unicode_len();
    if n != b.unicode_len() {
        return false;
    }
    let mut i: usize = 0;
    while i < n
        invariant
            n == a@.len(),
            n == b@.len(),
            i <= n,
            forall|j: int| 0 <= j < i ==> a@[j] == b@[j],
        decreases n - i,
    {
        if a.get_char(i) != b.get_char(i) {
            return false;
        }
        i = i + 1;
    }
    assert(a@ =~= b@);
    true
}

/// The characters of a string slice, one by one.
pub fn chars_of(s: &str) -> (res: Vec<char>)
    ensures
        res@ == s@,
{
    let n = s.unicode_len();
    let mut res: Vec<char> = Vec::new();
    let mut i: usize = 0;
    while i < n
        invariant
            n == s@.len(),
            i <= n,
            res@ == s@.take(i as int),
        decreases n - i,
    {
        let c = s.get_char(i);
        res.push(c);
        i = i + 1;
        assert(res@ =~= s@.take(i as int));
    }
    assert(res@ =~= s@);
    res
}

} // verus!

verus! {

/// The characters Unicode gives the `White_Space` property, which
/// `str::trim` removes.
pub open spec fn is_white_space(c: char) -> bool {
    let u = c as u32;
    ||| 0x09 <= u <= 0x0d
    ||| u == 0x20
    ||| u == 0x85
    ||| u == 0xa0
    ||| u == 0x1680
    ||| 0x2000 <= u <= 0x200a
    ||| u == 0x2028
    ||| u == 0x2029
    ||| u == 0x202f
    ||| u == 0x205f
    ||| u == 0x3000
}

pub fn is_white_space_exec(c: char) -> (res: bool)
    ensures
        res == is_white_space(c),
{
    let u = c as u32;
    (0x09 <= u && u <= 0x0d) || u == 0x20 || u == 0x85 || u == 0xa0 || u == 0x1680 || (0x2000 <= u && u
        <= 0x200a) || u == 0x2028 || u == 0x2029 || u == 0x202f || u == 0x205f || u == 0x3000
}

/// A text without its leading white space.
pub open spec fn trim_start(s: Seq<char>) -> Seq<char>
    decreases s.len(),
{
    if s.len() > 0 && is_white_space(s[0]) {
        trim_start(s.drop_first())
    } else {
        s
    }
}

/// A text without its trailing white space.
pub open spec fn trim_end(s: Seq<char>) -> Seq<char>
    decreases s.len(),
{
    if s.len() > 0 && is_white_space(s.last()) {
        trim_end(s.drop_last())
    } else {
        s
    }
}

/// A text without leading and trailing white space, as `str::trim` gives it.
pub open spec fn trimmed(s: Seq<char>) -> Seq<char> {
    trim_end(trim_start(s))
}

/// The characters of `s` without leading and trailing white space.
pub fn trim_chars(s: &str) -> (res: Vec<char>)
    ensures
        res@ == trimmed(s@),
{
    let cs = chars_of(s);
    let n = cs.len();
    let mut lo: usize = 0;
    assert(cs@.skip(0) =~= cs@);
    while lo < n && is_white_space_exec(cs[lo])
        invariant
            cs@ == s@,
            n == cs@.len(),
            lo <= n,
            trim_start(cs@) == trim_start(cs@.skip(lo as int)),
        decreases n - lo,
    {
        assert(cs@.skip(lo as int).drop_first() =~= cs@.skip(lo + 1));
        lo = lo + 1;
    }
    let ghost t = cs@.skip(lo as int);
    assert(trim_start(cs@) == t);
    let mut hi: usize = n;
    while hi > lo && is_white_space_exec(cs[hi - 1])
        invariant
            cs@ == s@,
            n == cs@.len(),
            lo <= hi <= n,
            t == cs@.skip(lo as int),
            trim_end(t) == trim_end(cs@.subrange(lo as int, hi as int)),
        decreases hi - lo,
    {
        assert(cs@.subrange(lo as int, hi as int).drop_last() =~= cs@.subrange(lo as int, hi - 1));
        hi = hi - 1;
    }
    assert(trim_end(t) == cs@.subrange(lo as int, hi as int));
    let mut res: Vec<char> = Vec::new();
    let mut k: usize = lo;
    while k < hi
        invariant
            cs@ == s@,
            n == cs@.len(),
            lo <= k <= hi <= n,
            res@ == cs@.subrange(lo as int, k as int),
        decreases hi - k,
    {
        res.push(cs[k]);
        k = k + 1;
        assert(res@ =~= cs@.subrange(lo as int, k as int));
    }
    assert(t =~= cs@.skip(lo as int));
    res
}

} // verus!

verus! {

/// The parts joined with `sep` between each two of them.
pub open spec fn joined(parts: Seq<Seq<char>>, sep: Seq<char>) -> Seq<char>
    decreases parts.len(),
{
    if parts.len() == 0 {
        Seq::empty()
    } else if parts.len() == 1 {
        parts[0]
    } else {
        joined(parts.drop_last(), sep) + sep + parts.last()
    }
}

/// `parts.join(sep)`, as `[String]::join` computes it.
pub fn join_strings(parts: &Vec<String>, sep: &str) -> (res: String)
    ensures
        res@ == joined(parts@.map_values(|p: String| p@), sep@),
{
    let ghost pv = parts@.map_values(|p: String| p@);
    let mut res = String::new();
    let mut k: usize = 0;
    while k < parts.len()
        invariant
            pv == parts@.map_values(|p: String| p@),
            k <= parts.len(),
            res@ == joined(pv.take(k as int), sep@),
        decreases parts.len() - k,
    {
        assert(pv.take(k + 1).drop_last() =~= pv.take(k as int));
        assert(pv.take(k + 1).last() == parts@[k as int]@);
        if k > 0 {
            res.append(sep);
        } else {
            assert(pv.take(1)[0] == parts@[0]@);
            assert(res@ =~= Seq::<char>::empty());
        }
        res.append(parts[k].as_str());
        k = k + 1;
        if k == 1 {
            assert(res@ =~= pv.take(1)[0]);
        }
    }
    assert(pv.take(parts.len() as int) =~= pv);
    res
}

} // verus!

verus! {

/// The decimal digit of a value below 10.
pub open spec fn digit_char(d: nat) -> char {
    (d + 48) as char
}

/// The decimal text of a number, as `Display` writes it for unsigned integers.
pub open spec fn decimal_text(n: nat) -> Seq<char>
    decreases n,
{
    if n < 10 {
        seq![digit_char(n)]
    } else {
        decimal_text(n / 10).push(digit_char(n % 10))
    }
}

fn digit(d: u64) -> (c: char)
    requires
        d < 10,
    ensures
        c == digit_char(d as nat),
{
    let b = d as u8;
    (48u8 + b) as char
}

/// The decimal text of `n`.
pub fn u64_text(n: u64) -> (res: String)
    ensures
        res@ == decimal_text(n as nat),
{
    let mut v = n;
    let mut low_first: Vec<char> = Vec::new();
    while v >= 10
        invariant
            decimal_text(n as nat) == decimal_text(v as nat) + low_first@.reverse(),
        decreases v,
    {
        let d = digit(v % 10);
        let ghost before = low_first@;
        low_first.push(d);
        assert(low_first@.reverse() =~= seq![d] + before.reverse());
        assert(decimal_text(v as nat) == decimal_text((v / 10) as nat).push(d));
        v = v / 10;
        assert(decimal_text(n as nat) =~= decimal_text(v as nat) + low_first@.reverse());
    }
    let mut s = String::new();
    push_char(&mut s, digit(v));
    let mut k = low_first.len();
    while k > 0
        invariant
            k <= low_first.len(),
            s@ == decimal_text(v as nat) + low_first@.subrange(k as int, low_first.len() as int).reverse(),
        decreases k,
    {
        k = k - 1;
        push_char(&mut s, low_first[k]);
        assert(low_first@.subrange(k as int, low_first.len() as int).reverse() =~= low_first@.subrange(
            k + 1,
            low_first.len() as int,
        ).reverse().push(low_first@[k as int]));
    }
    assert(low_first@.subrange(0, low_first.len() as int) =~= low_first@);
    s
}

/// The decimal text of `n`.
pub fn usize_text(n: usize) -> (res: String)
    ensures
        res@ == decimal_text(n as nat),
{
    u64_text(n as u64)
}

/// The decimal text of a signed number, as `Display` writes it: a minus
/// sign before the digits of a negative one.
pub open spec fn signed_text(v: int) -> Seq<char> {
    if v < 0 {
        seq!['-'] + decimal_text((-v) as nat)
    } else {
        decimal_text(v as nat)
    }
}

/// The decimal text of `n`.
pub fn i64_text(n: i64) -> (res: String)
    ensures
        res@ == signed_text(n as int),
{
    if n < 0 {
        let magnitude: u64 = if n == i64::MIN {
            0x8000_0000_0000_0000u64
        } else {
            (-n) as u64
        };
        let mut s = String::new();
        push_char(&mut s, '-');
        let digits = u64_text(magnitude);
        s.append(digits.as_str());
        assert(s@ =~= seq!['-'] + decimal_text((-n) as nat));
        s
    } else {
        u64_text(n as u64)
    }
}

/// The characters of `s` as a `String`.
pub fn chars_to_string(cs: &Vec<char>) -> (res: String)
    ensures
        res@ == cs@,
{
    let mut s = String::new();
    let mut i: usize = 0;
    while i < cs.len()
        invariant
            i <= cs.len(),
            s@ == cs@.take(i as int),
        decreases cs.len() - i,
    {
        push_char(&mut s, cs[i]);
        i = i + 1;
        assert(s@ =~= cs@.take(i as int));
    }
    assert(cs@.take(cs.len() as int) =~= cs@);
    s
}

/// `s` without its trailing white space, as `str::trim_end` gives it.
pub fn trim_end_text(s: &str) -> (res: String)
    ensures
        res@ == trim_end(s@),
{
    let cs = chars_of(s);
    let mut hi: usize = cs.len();
    assert(cs@.subrange(0, hi as int) =~= cs@);
    while hi > 0 && is_white_space_exec(cs[hi - 1])
        invariant
            cs@ == s@,
            hi <= cs.len(),
            trim_end(s@) == trim_end(cs@.subrange(0, hi as int)),
        decreases hi,
    {
        assert(cs@.subrange(0, hi as int).drop_last() =~= cs@.subrange(0, hi - 1));
        hi = hi - 1;
    }
    let mut out = String::new();
    let mut k: usize = 0;
    while k < hi
        invariant
            cs@ == s@,
            k <= hi <= cs.len(),
            out@ == cs@.subrange(0, k as int),
        decreases hi - k,
    {
        push_char(&mut out, cs[k]);
        k = k + 1;
        assert(out@ =~= cs@.subrange(0, k as int));
    }
    out
}

/// `s` without surrounding white space, as `str::trim` gives it.
pub fn trim_text(s: &str) -> (res: String)
    ensures
        res@ == trimmed(s@),
{
    let cs = trim_chars(s);
    chars_to_string(&cs)
}

/// The lower-case form of a text, as `str::to_lowercase` gives it (by the
/// Unicode `Lowercase` mapping, the same on every machine and locale).
pub uninterp spec fn unicode_lowercase(s: Seq<char>) -> Seq<char>;

/// `str::to_lowercase`: the contract claims only that the result is a
/// function of the text.
#[verifier::external_body]
pub(crate) fn to_lowercase(s: &str) -> (res: String)
    ensures
        res@ == unicode_lowercase(s@),
{
    s.to_lowercase()
}

} // verus!

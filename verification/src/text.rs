//! Text over Unicode scalar values: whitespace, trimming, line splitting,
//! substring search and decimal rendering, each with the meaning that the
//! standard library gives to the operation of the same name.
use vstd::prelude::*;

verus! {

/// The Unicode `White_Space` code points: what `char::is_whitespace`
/// accepts and what the class `\s` of a Unicode regular expression matches.
pub open spec fn is_space(c: char) -> bool {
    let u = c as u32;
    ||| (0x09 <= u && u <= 0x0d)
    ||| u == 0x20
    ||| u == 0x85
    ||| u == 0xa0
    ||| u == 0x1680
    ||| (0x2000 <= u && u <= 0x200a)
    ||| u == 0x2028
    ||| u == 0x2029
    ||| u == 0x202f
    ||| u == 0x205f
    ||| u == 0x3000
}

/// `s` with its leading whitespace removed (`str::trim_start`).
pub open spec fn trim_start(s: Seq<char>) -> Seq<char>
    decreases s.len(),
{
    if s.len() > 0 && is_space(s[0]) {
        trim_start(s.drop_first())
    } else {
        s
    }
}

/// `s` with its trailing whitespace removed (`str::trim_end`).
pub open spec fn trim_end(s: Seq<char>) -> Seq<char>
    decreases s.len(),
{
    if s.len() > 0 && is_space(s.last()) {
        trim_end(s.drop_last())
    } else {
        s
    }
}

/// `s` with leading and trailing whitespace removed (`str::trim`).
pub open spec fn trim(s: Seq<char>) -> Seq<char> {
    trim_end(trim_start(s))
}

/// `s` holds no line feed.
pub open spec fn newline_free(s: Seq<char>) -> bool {
    forall|i: int| 0 <= i < s.len() ==> s[i] != '\n'
}

/// The index of the first line feed of `s`, or its length if it has none.
pub open spec fn line_end(s: Seq<char>) -> int
    decreases s.len(),
{
    if s.len() == 0 {
        0
    } else if s[0] == '\n' {
        0
    } else {
        1 + line_end(s.drop_first())
    }
}

/// A line's text without the carriage return of a `\r\n` terminator.
pub open spec fn strip_cr(s: Seq<char>) -> Seq<char> {
    if s.len() > 0 && s.last() == '\r' {
        s.drop_last()
    } else {
        s
    }
}

/// The lines of `s` as `str::lines` yields them: split at `\n` or `\r\n`,
/// terminators removed, and no empty line after a final terminator.
pub open spec fn lines(s: Seq<char>) -> Seq<Seq<char>>
    decreases s.len(),
{
    if s.len() == 0 {
        seq![]
    } else {
        let k = line_end(s);
        if 0 <= k < s.len() {
            seq![strip_cr(s.take(k))] + lines(s.skip(k + 1))
        } else {
            seq![s]
        }
    }
}

/// `p` occurs in `s` starting at index `i`.
pub open spec fn occurs_at(s: Seq<char>, p: Seq<char>, i: int) -> bool {
    0 <= i && i + p.len() <= s.len() && s.subrange(i, i + p.len()) == p
}

/// `p` occurs somewhere in `s` (`str::contains`).
pub open spec fn contains(s: Seq<char>, p: Seq<char>) -> bool {
    exists|i: int| occurs_at(s, p, i)
}

/// `s` begins with `p` (`str::starts_with`).
pub open spec fn starts_with(s: Seq<char>, p: Seq<char>) -> bool {
    occurs_at(s, p, 0)
}

/// The decimal digit character for `d`.
pub open spec fn digit_char(d: int) -> char {
    (d + 48) as char
}

/// The decimal rendering of a natural number, without leading zeros.
pub open spec fn decimal(n: nat) -> Seq<char>
    decreases n,
{
    if n < 10 {
        seq![digit_char(n as int)]
    } else {
        decimal(n / 10).push(digit_char((n % 10) as int))
    }
}

/// The decimal rendering of an integer, with a leading `-` when negative.
pub open spec fn int_decimal(i: int) -> Seq<char> {
    if i < 0 {
        seq!['-'].add(decimal((-i) as nat))
    } else {
        decimal(i as nat)
    }
}

/// Whether `c` is a whitespace character.
pub fn is_space_char(c: char) -> (r: bool)
    ensures
        r == is_space(c),
{
    let u = c as u32;
    (0x09 <= u && u <= 0x0d) || u == 0x20 || u == 0x85 || u == 0xa0 || u == 0x1680 || (0x2000
        <= u && u <= 0x200a) || u == 0x2028 || u == 0x2029 || u == 0x202f || u == 0x205f || u
        == 0x3000
}

/// The characters of `s`.
pub fn chars_of(s: &str) -> (v: Vec<char>)
    ensures
        v@ == s@,
{
    let mut v: Vec<char> = Vec::new();
    for c in it: s.chars()
        invariant
            v@ == it.seq().take(it.index() as int),
    {
        v.push(c);
    }
    v
}

/// Appends `c` to `s` (`String::push`).
#[verifier::external_body]
fn push_char(s: &mut String, c: char)
    ensures
        final(s)@ == old(s)@.push(c),
{
    s.push(c);
}

/// The string made of `cs[lo..hi]`.
pub fn string_of(cs: &Vec<char>, lo: usize, hi: usize) -> (r: String)
    requires
        lo <= hi <= cs.len(),
    ensures
        r@ == cs@.subrange(lo as int, hi as int),
{
    let mut r = String::new();
    let mut i = lo;
    while i < hi
        invariant
            lo <= i <= hi <= cs.len(),
            r@ == cs@.subrange(lo as int, i as int),
        decreases hi - i,
    {
        push_char(&mut r, cs[i]);
        assert(cs@.subrange(lo as int, i + 1) =~= cs@.subrange(lo as int, i as int).push(cs@[i as int]));
        i += 1;
    }
    r
}

/// The string made of all of `cs`.
pub fn string_of_all(cs: &Vec<char>) -> (r: String)
    ensures
        r@ == cs@,
{
    let r = string_of(cs, 0, cs.len());
    assert(cs@.subrange(0, cs@.len() as int) =~= cs@);
    r
}

/// Appends the characters of `cs` to `s`.
pub fn append_chars(s: &mut String, cs: &Vec<char>)
    ensures
        final(s)@ == old(s)@ + cs@,
{
    let mut i: usize = 0;
    while i < cs.len()
        invariant
            i <= cs.len(),
            s@ == old(s)@ + cs@.take(i as int),
        decreases cs.len() - i,
    {
        push_char(s, cs[i]);
        assert(cs@.take(i + 1) =~= cs@.take(i as int).push(cs@[i as int]));
        i += 1;
    }
    assert(cs@.take(cs.len() as int) =~= cs@);
}

/// Appends `t` to `s` (`String::push_str`).
pub fn append_str(s: &mut String, t: &str)
    ensures
        final(s)@ == old(s)@ + t@,
{
    let cs = chars_of(t);
    append_chars(s, &cs);
}

/// Whether two strings hold the same characters.
pub fn str_eq(a: &str, b: &str) -> (r: bool)
    ensures
        r == (a@ == b@),
{
    let x = a.to_owned();
    let y = b.to_owned();
    x == y
}

/// The first index in `lo..hi` that does not hold whitespace, or `hi`.
pub fn skip_space(cs: &Vec<char>, lo: usize, hi: usize) -> (i: usize)
    requires
        lo <= hi <= cs.len(),
    ensures
        lo <= i <= hi,
        cs@.subrange(i as int, hi as int) == trim_start(cs@.subrange(lo as int, hi as int)),
        forall|k: int| lo <= k < i ==> is_space(#[trigger] cs@[k]),
        i < hi ==> !is_space(cs@[i as int]),
{
    let mut i = lo;
    while i < hi && is_space_char(cs[i])
        invariant
            lo <= i <= hi <= cs.len(),
            trim_start(cs@.subrange(lo as int, hi as int)) == trim_start(
                cs@.subrange(i as int, hi as int),
            ),
            forall|k: int| lo <= k < i ==> is_space(#[trigger] cs@[k]),
        decreases hi - i,
    {
        assert(cs@.subrange(i as int, hi as int).drop_first() =~= cs@.subrange(
            i + 1,
            hi as int,
        ));
        i += 1;
    }
    if i < hi {
        assert(cs@.subrange(i as int, hi as int)[0] == cs@[i as int]);
    }
    i
}

/// The end of `cs[lo..hi]` once its trailing whitespace is removed.
pub fn skip_space_back(cs: &Vec<char>, lo: usize, hi: usize) -> (j: usize)
    requires
        lo <= hi <= cs.len(),
    ensures
        lo <= j <= hi,
        cs@.subrange(lo as int, j as int) == trim_end(cs@.subrange(lo as int, hi as int)),
        forall|k: int| j <= k < hi ==> is_space(#[trigger] cs@[k]),
{
    let mut j = hi;
    while j > lo && is_space_char(cs[j - 1])
        invariant
            lo <= j <= hi <= cs.len(),
            trim_end(cs@.subrange(lo as int, hi as int)) == trim_end(
                cs@.subrange(lo as int, j as int),
            ),
            forall|k: int| j <= k < hi ==> is_space(#[trigger] cs@[k]),
        decreases j - lo,
    {
        assert(cs@.subrange(lo as int, j as int).drop_last() =~= cs@.subrange(
            lo as int,
            j - 1,
        ));
        j -= 1;
    }
    if j > lo {
        assert(cs@.subrange(lo as int, j as int).last() == cs@[j - 1]);
    }
    j
}

/// `line_end` is the first line feed, or the length when there is none.
pub proof fn lemma_line_end(s: Seq<char>, m: int)
    requires
        0 <= m <= s.len(),
        forall|i: int| 0 <= i < m ==> s[i] != '\n',
        m == s.len() || s[m] == '\n',
    ensures
        line_end(s) == m,
    decreases m,
{
    if m > 0 {
        lemma_line_end(s.drop_first(), m - 1);
    }
}

/// The spans of the lines of `cs`, in order.
pub fn line_spans(cs: &Vec<char>) -> (r: Vec<(usize, usize)>)
    ensures
        r.len() == lines(cs@).len(),
        forall|k: int|
            0 <= k < r.len() ==> {
                &&& (#[trigger] r@[k]).0 <= r@[k].1 <= cs.len()
                &&& cs@.subrange(r@[k].0 as int, r@[k].1 as int) == lines(cs@)[k]
            },
{
    let n = cs.len();
    let mut r: Vec<(usize, usize)> = Vec::new();
    let mut pos: usize = 0;
    let mut j: usize = 0;
    assert(cs@.skip(0) =~= cs@);
    assert(Seq::new(0, |k: int| cs@.subrange(r@[k].0 as int, r@[k].1 as int)) + lines(cs@)
        =~= lines(cs@));
    while j < n
        invariant
            n == cs.len(),
            pos <= j <= n,
            forall|i: int| pos <= i < j ==> cs@[i] != '\n',
            lines(cs@) == Seq::new(
                r.len() as nat,
                |k: int| cs@.subrange(r@[k].0 as int, r@[k].1 as int),
            ) + lines(cs@.skip(pos as int)),
            forall|k: int| 0 <= k < r.len() ==> (#[trigger] r@[k]).0 <= r@[k].1 <= n,
        decreases n - j,
    {
        if cs[j] == '\n' {
            let ghost t = cs@.skip(pos as int);
            let ghost old_r = r@;
            proof {
                lemma_line_end(t, j - pos);
                assert(t.skip(j - pos + 1) =~= cs@.skip(j + 1));
            }
            let end = if j > pos && cs[j - 1] == '\r' {
                j - 1
            } else {
                j
            };
            proof {
                assert(cs@.subrange(pos as int, end as int) =~= strip_cr(t.take(j - pos)));
            }
            r.push((pos, end));
            proof {
                assert(Seq::new(
                    r.len() as nat,
                    |k: int| cs@.subrange(r@[k].0 as int, r@[k].1 as int),
                ) =~= Seq::new(
                    old_r.len() as nat,
                    |k: int| cs@.subrange(old_r[k].0 as int, old_r[k].1 as int),
                ) + seq![strip_cr(t.take(j - pos))]);
            }
            pos = j + 1;
        }
        j += 1;
    }
    let ghost t = cs@.skip(pos as int);
    let ghost old_r = r@;
    if pos < n {
        proof {
            lemma_line_end(t, n - pos);
            assert(cs@.subrange(pos as int, n as int) =~= t);
        }
        r.push((pos, n));
        proof {
            assert(Seq::new(
                r.len() as nat,
                |k: int| cs@.subrange(r@[k].0 as int, r@[k].1 as int),
            ) =~= Seq::new(
                old_r.len() as nat,
                |k: int| cs@.subrange(old_r[k].0 as int, old_r[k].1 as int),
            ) + seq![t]);
        }
    } else {
        assert(t.len() == 0);
    }
    assert(lines(cs@) =~= Seq::new(
        r.len() as nat,
        |k: int| cs@.subrange(r@[k].0 as int, r@[k].1 as int),
    ));
    r
}

/// Whether `p` occurs in `cs[lo..hi]` starting at `i`.
pub fn occurs_at_exec(cs: &Vec<char>, lo: usize, hi: usize, p: &Vec<char>, i: usize) -> (r: bool)
    requires
        lo <= i <= hi <= cs.len(),
    ensures
        r == occurs_at(cs@.subrange(lo as int, hi as int), p@, i - lo),
{
    let ghost s = cs@.subrange(lo as int, hi as int);
    if p.len() > hi - i {
        return false;
    }
    let mut k: usize = 0;
    while k < p.len()
        invariant
            lo <= i <= hi <= cs.len(),
            s == cs@.subrange(lo as int, hi as int),
            p.len() <= hi - i,
            k <= p.len(),
            forall|m: int| 0 <= m < k ==> cs@[i + m] == p@[m],
        decreases p.len() - k,
    {
        if cs[i + k] != p[k] {
            assert(s.subrange(i - lo, i - lo + p.len())[k as int] == cs@[i + k]);
            return false;
        }
        k += 1;
    }
    assert(s.subrange(i - lo, i - lo + p.len()) =~= p@);
    true
}

/// Whether `p` occurs in `cs[lo..hi]`.
pub fn contains_exec(cs: &Vec<char>, lo: usize, hi: usize, p: &Vec<char>) -> (r: bool)
    requires
        lo <= hi <= cs.len(),
    ensures
        r == contains(cs@.subrange(lo as int, hi as int), p@),
{
    let ghost s = cs@.subrange(lo as int, hi as int);
    let mut i = lo;
    loop
        invariant
            lo <= i <= hi,
            hi <= cs.len(),
            s == cs@.subrange(lo as int, hi as int),
            forall|m: int| 0 <= m < i - lo ==> !occurs_at(s, p@, m),
        decreases hi - i,
    {
        if occurs_at_exec(cs, lo, hi, p, i) {
            return true;
        }
        if i == hi {
            assert forall|m: int| !occurs_at(s, p@, m) by {
                if 0 <= m && m + p@.len() <= s.len() {
                    assert(m <= i - lo);
                }
            }
            return false;
        }
        i += 1;
    }
}

/// Whether `cs[lo..hi]` begins with `p`.
pub fn starts_with_exec(cs: &Vec<char>, lo: usize, hi: usize, p: &Vec<char>) -> (r: bool)
    requires
        lo <= hi <= cs.len(),
    ensures
        r == starts_with(cs@.subrange(lo as int, hi as int), p@),
{
    occurs_at_exec(cs, lo, hi, p, lo)
}

/// The digit character for `d < 10`.
fn digit_of(d: u64) -> (c: char)
    requires
        d < 10,
    ensures
        c == digit_char(d as int),
{
    let b = (d as u8) + 48;
    b as char
}

/// Appends the decimal rendering of `n` to `s`.
pub fn push_decimal(s: &mut String, n: u64)
    ensures
        final(s)@ == old(s)@ + decimal(n as nat),
    decreases n,
{
    if n >= 10 {
        push_decimal(s, n / 10);
    }
    let c = digit_of(n % 10);
    push_char(s, c);
    if n >= 10 {
        assert(decimal(n as nat) == decimal((n / 10) as nat).push(c));
    } else {
        assert(decimal(n as nat) =~= seq![c]);
    }
}

/// Appends the decimal rendering of `i` to `s`, signed.
pub fn push_int_decimal(s: &mut String, i: i64)
    ensures
        final(s)@ == old(s)@ + int_decimal(i as int),
{
    let w: i128 = i as i128;
    if w < 0 {
        push_char(s, '-');
        let m: u64 = (-w) as u64;
        push_decimal(s, m);
        assert(old(s)@.push('-') + decimal(m as nat) =~= old(s)@ + (seq!['-'].add(
            decimal(m as nat),
        )));
    } else {
        push_decimal(s, w as u64);
    }
}

/// Whether two character sequences are equal.
pub fn chars_eq(a: &Vec<char>, lo: usize, hi: usize, b: &Vec<char>) -> (r: bool)
    requires
        lo <= hi <= a.len(),
    ensures
        r == (a@.subrange(lo as int, hi as int) == b@),
{
    if hi - lo != b.len() {
        return false;
    }
    let r = occurs_at_exec(a, lo, hi, b, lo);
    assert(a@.subrange(lo as int, hi as int).subrange(0, b@.len() as int) =~= a@.subrange(
        lo as int,
        hi as int,
    ));
    r
}

} // verus!

//! The line grammar of the `pactl list cards` report.
//!
//! Each kind of line is recognised by a pattern, written here in the
//! notation of regular expressions:
//!
//! * name:     `^\s*Name:\s*(\S+)`
//! * active:   `^\s*Active Profile:\s*(.+)`, the capture trimmed
//! * label:    `^\s*alsa\.card_name\s*=\s*"(.+)"`
//! * profile:  `^\s+(\S+):.*priority:\s*(\d+),\s*available:\s*(yes|no)`
//! * HDMI:     the line contains `port.type = "hdmi"`
//!
//! Here `\s` is the Unicode whitespace class, `\S` its complement, `\d` a
//! decimal digit of any script (general category `Nd`), and `.` any
//! character of a line (lines hold no line feed).
//! Where a pattern could match in several ways the capture is the one that a
//! backtracking matcher with greedy quantifiers finds first.
use vstd::prelude::*;
use crate::text::{
    chars_of, contains, contains_exec, is_space, is_space_char, occurs_at, occurs_at_exec,
    skip_space, skip_space_back, starts_with, starts_with_exec, trim, trim_start,
};

verus! {

/// Length of the longest prefix of `s` without whitespace.
pub open spec fn nonspace_run(s: Seq<char>) -> int
    decreases s.len(),
{
    if s.len() > 0 && !is_space(s[0]) {
        1 + nonspace_run(s.drop_first())
    } else {
        0
    }
}

/// An ASCII decimal digit.
pub open spec fn is_digit(c: char) -> bool {
    48 <= (c as u32) && (c as u32) <= 57
}

/// A decimal digit of any script: the Unicode general category `Nd`
/// (Unicode 16.0), which is what the class `\d` of a Unicode regular
/// expression matches.
pub open spec fn is_decimal_digit(c: char) -> bool {
    let u = c as u32;
    ||| (0x30 <= u && u <= 0x39)
    ||| (0x660 <= u && u <= 0x669)
    ||| (0x6f0 <= u && u <= 0x6f9)
    ||| (0x7c0 <= u && u <= 0x7c9)
    ||| (0x966 <= u && u <= 0x96f)
    ||| (0x9e6 <= u && u <= 0x9ef)
    ||| (0xa66 <= u && u <= 0xa6f)
    ||| (0xae6 <= u && u <= 0xaef)
    ||| (0xb66 <= u && u <= 0xb6f)
    ||| (0xbe6 <= u && u <= 0xbef)
    ||| (0xc66 <= u && u <= 0xc6f)
    ||| (0xce6 <= u && u <= 0xcef)
    ||| (0xd66 <= u && u <= 0xd6f)
    ||| (0xde6 <= u && u <= 0xdef)
    ||| (0xe50 <= u && u <= 0xe59)
    ||| (0xed0 <= u && u <= 0xed9)
    ||| (0xf20 <= u && u <= 0xf29)
    ||| (0x1040 <= u && u <= 0x1049)
    ||| (0x1090 <= u && u <= 0x1099)
    ||| (0x17e0 <= u && u <= 0x17e9)
    ||| (0x1810 <= u && u <= 0x1819)
    ||| (0x1946 <= u && u <= 0x194f)
    ||| (0x19d0 <= u && u <= 0x19d9)
    ||| (0x1a80 <= u && u <= 0x1a89)
    ||| (0x1a90 <= u && u <= 0x1a99)
    ||| (0x1b50 <= u && u <= 0x1b59)
    ||| (0x1bb0 <= u && u <= 0x1bb9)
    ||| (0x1c40 <= u && u <= 0x1c49)
    ||| (0x1c50 <= u && u <= 0x1c59)
    ||| (0xa620 <= u && u <= 0xa629)
    ||| (0xa8d0 <= u && u <= 0xa8d9)
    ||| (0xa900 <= u && u <= 0xa909)
    ||| (0xa9d0 <= u && u <= 0xa9d9)
    ||| (0xa9f0 <= u && u <= 0xa9f9)
    ||| (0xaa50 <= u && u <= 0xaa59)
    ||| (0xabf0 <= u && u <= 0xabf9)
    ||| (0xff10 <= u && u <= 0xff19)
    ||| (0x104a0 <= u && u <= 0x104a9)
    ||| (0x10d30 <= u && u <= 0x10d39)
    ||| (0x10d40 <= u && u <= 0x10d49)
    ||| (0x11066 <= u && u <= 0x1106f)
    ||| (0x110f0 <= u && u <= 0x110f9)
    ||| (0x11136 <= u && u <= 0x1113f)
    ||| (0x111d0 <= u && u <= 0x111d9)
    ||| (0x112f0 <= u && u <= 0x112f9)
    ||| (0x11450 <= u && u <= 0x11459)
    ||| (0x114d0 <= u && u <= 0x114d9)
    ||| (0x11650 <= u && u <= 0x11659)
    ||| (0x116c0 <= u && u <= 0x116c9)
    ||| (0x116d0 <= u && u <= 0x116e3)
    ||| (0x11730 <= u && u <= 0x11739)
    ||| (0x118e0 <= u && u <= 0x118e9)
    ||| (0x11950 <= u && u <= 0x11959)
    ||| (0x11bf0 <= u && u <= 0x11bf9)
    ||| (0x11c50 <= u && u <= 0x11c59)
    ||| (0x11d50 <= u && u <= 0x11d59)
    ||| (0x11da0 <= u && u <= 0x11da9)
    ||| (0x11f50 <= u && u <= 0x11f59)
    ||| (0x16130 <= u && u <= 0x16139)
    ||| (0x16a60 <= u && u <= 0x16a69)
    ||| (0x16ac0 <= u && u <= 0x16ac9)
    ||| (0x16b50 <= u && u <= 0x16b59)
    ||| (0x16d70 <= u && u <= 0x16d79)
    ||| (0x1ccf0 <= u && u <= 0x1ccf9)
    ||| (0x1d7ce <= u && u <= 0x1d7ff)
    ||| (0x1e140 <= u && u <= 0x1e149)
    ||| (0x1e2f0 <= u && u <= 0x1e2f9)
    ||| (0x1e4f0 <= u && u <= 0x1e4f9)
    ||| (0x1e5f1 <= u && u <= 0x1e5fa)
    ||| (0x1e950 <= u && u <= 0x1e959)
    ||| (0x1fbf0 <= u && u <= 0x1fbf9)
}

/// Length of the longest prefix of `s` made of decimal digits.
pub open spec fn digit_run(s: Seq<char>) -> int
    decreases s.len(),
{
    if s.len() > 0 && is_decimal_digit(s[0]) {
        1 + digit_run(s.drop_first())
    } else {
        0
    }
}

/// The number that a string of ASCII digits denotes.
pub open spec fn digits_value(s: Seq<char>) -> nat
    decreases s.len(),
{
    if s.len() == 0 {
        0
    } else {
        digits_value(s.drop_last()) * 10 + ((s.last() as u32) - 48) as nat
    }
}

/// A string of decimal digits read as a `u32`, and 0 where `str::parse`
/// refuses it: where a digit is not ASCII or the value does not fit
/// (`str::parse::<u32>` followed by `unwrap_or(0)`).
pub open spec fn priority_value(s: Seq<char>) -> u32 {
    if (forall|i: int| 0 <= i < s.len() ==> is_digit(#[trigger] s[i])) && digits_value(s)
        <= u32::MAX {
        digits_value(s) as u32
    } else {
        0
    }
}

/// The capture of the name pattern on a line.
pub open spec fn name_capture(l: Seq<char>) -> Option<Seq<char>> {
    let a = trim_start(l);
    if starts_with(a, "Name:"@) {
        let b = trim_start(a.skip(5));
        if nonspace_run(b) > 0 {
            Some(b.take(nonspace_run(b)))
        } else {
            None
        }
    } else {
        None
    }
}

/// The capture of the active profile pattern on a line, trimmed.
pub open spec fn active_capture(l: Seq<char>) -> Option<Seq<char>> {
    let a = trim_start(l);
    if starts_with(a, "Active Profile:"@) && a.len() > 15 {
        Some(trim(a.skip(15)))
    } else {
        None
    }
}

/// The largest index `j >= 1` with `d[j] == '"'`, or -1.
pub open spec fn last_quote(d: Seq<char>) -> int
    decreases d.len(),
{
    if d.len() <= 1 {
        -1
    } else if d.last() == '"' {
        d.len() - 1
    } else {
        last_quote(d.drop_last())
    }
}

/// The capture of the card label pattern on a line.
pub open spec fn label_capture(l: Seq<char>) -> Option<Seq<char>> {
    let a = trim_start(l);
    if starts_with(a, "alsa.card_name"@) {
        let b = trim_start(a.skip(14));
        if b.len() > 0 && b[0] == '=' {
            let c = trim_start(b.skip(1));
            if c.len() > 0 && c[0] == '"' && last_quote(c.skip(1)) >= 1 {
                Some(c.skip(1).take(last_quote(c.skip(1))))
            } else {
                None
            }
        } else {
            None
        }
    } else {
        None
    }
}

/// Whether the line names an HDMI port.
pub open spec fn hdmi_line(l: Seq<char>) -> bool {
    contains(l, "port.type = \"hdmi\""@)
}

/// `\s*(\d+),\s*available:\s*(yes|no)` at the start of `u`: the digits
/// and whether the availability is `yes`.
pub open spec fn avail_match(u: Seq<char>) -> Option<(Seq<char>, bool)> {
    let u1 = trim_start(u);
    let d = digit_run(u1);
    if d > 0 && d < u1.len() && u1[d] == ',' {
        let u2 = trim_start(u1.skip(d + 1));
        if starts_with(u2, "available:"@) {
            let u3 = trim_start(u2.skip(10));
            if starts_with(u3, "yes"@) {
                Some((u1.take(d), true))
            } else if starts_with(u3, "no"@) {
                Some((u1.take(d), false))
            } else {
                None
            }
        } else {
            None
        }
    } else {
        None
    }
}

/// `.*priority:` followed by `avail_match`, where `.*` ends at or before
/// index `p` of `t`: the greedy match takes the last such occurrence.
pub open spec fn priority_search(t: Seq<char>, p: int) -> Option<(Seq<char>, bool)>
    decreases p + 1,
{
    if p < 0 {
        None
    } else if occurs_at(t, "priority:"@, p) && avail_match(t.skip(p + 9)) is Some {
        avail_match(t.skip(p + 9))
    } else {
        priority_search(t, p - 1)
    }
}

/// `.*priority:\s*(\d+),\s*available:\s*(yes|no)` at the start of `t`.
pub open spec fn priority_match(t: Seq<char>) -> Option<(Seq<char>, bool)> {
    priority_search(t, t.len() as int)
}

/// `(\S+):` followed by `priority_match`, where the name is at most `k`
/// characters long: the greedy match takes the longest such name.
pub open spec fn name_search(a: Seq<char>, k: int) -> Option<(Seq<char>, Seq<char>, bool)>
    decreases k,
{
    if k < 1 {
        None
    } else if k < nonspace_run(a) && a[k] == ':' && priority_match(a.skip(k + 1)) is Some {
        let m = priority_match(a.skip(k + 1)).unwrap();
        Some((a.take(k), m.0, m.1))
    } else {
        name_search(a, k - 1)
    }
}

/// The captures of the profile pattern on a line: name, priority digits,
/// and whether the profile is available.
pub open spec fn profile_capture(l: Seq<char>) -> Option<(Seq<char>, Seq<char>, bool)> {
    if l.len() > 0 && is_space(l[0]) {
        let a = trim_start(l);
        name_search(a, nonspace_run(a) - 1)
    } else {
        None
    }
}

/// The literal texts that the card report grammar recognises.
pub struct CardPatterns {
    pub name: Vec<char>,
    pub active: Vec<char>,
    pub label: Vec<char>,
    pub hdmi: Vec<char>,
    pub priority: Vec<char>,
    pub available: Vec<char>,
    pub yes: Vec<char>,
    pub no: Vec<char>,
    pub header: Vec<char>,
}

impl CardPatterns {
    pub open spec fn wf(&self) -> bool {
        &&& self.name@ == "Name:"@
        &&& self.active@ == "Active Profile:"@
        &&& self.label@ == "alsa.card_name"@
        &&& self.hdmi@ == "port.type = \"hdmi\""@
        &&& self.priority@ == "priority:"@
        &&& self.available@ == "available:"@
        &&& self.yes@ == "yes"@
        &&& self.no@ == "no"@
        &&& self.header@ == "Card #"@
    }

    pub fn new() -> (p: CardPatterns)
        ensures
            p.wf(),
    {
        CardPatterns {
            name: chars_of("Name:"),
            active: chars_of("Active Profile:"),
            label: chars_of("alsa.card_name"),
            hdmi: chars_of("port.type = \"hdmi\""),
            priority: chars_of("priority:"),
            available: chars_of("available:"),
            yes: chars_of("yes"),
            no: chars_of("no"),
            header: chars_of("Card #"),
        }
    }
}

proof fn lemma_literal_lengths()
    ensures
        "Name:"@.len() == 5,
        "Active Profile:"@.len() == 15,
        "alsa.card_name"@.len() == 14,
        "priority:"@.len() == 9,
        "available:"@.len() == 10,
{
    reveal_strlit("Name:");
    reveal_strlit("Active Profile:");
    reveal_strlit("alsa.card_name");
    reveal_strlit("priority:");
    reveal_strlit("available:");
}

/// The end of the run of non-whitespace characters that starts at `lo`.
pub fn scan_nonspace(cs: &Vec<char>, lo: usize, hi: usize) -> (k: usize)
    requires
        lo <= hi <= cs.len(),
    ensures
        lo <= k <= hi,
        k - lo == nonspace_run(cs@.subrange(lo as int, hi as int)),
{
    let mut k = lo;
    while k < hi && !is_space_char(cs[k])
        invariant
            lo <= k <= hi <= cs.len(),
            nonspace_run(cs@.subrange(lo as int, hi as int)) == (k - lo) + nonspace_run(
                cs@.subrange(k as int, hi as int),
            ),
        decreases hi - k,
    {
        assert(cs@.subrange(k as int, hi as int).drop_first() =~= cs@.subrange(
            k + 1,
            hi as int,
        ));
        k += 1;
    }
    if k < hi {
        assert(cs@.subrange(k as int, hi as int)[0] == cs@[k as int]);
    }
    k
}

/// Whether `c` is an ASCII digit.
pub(crate) fn is_digit_char(c: char) -> (r: bool)
    ensures
        r == is_digit(c),
{
    let u = c as u32;
    48 <= u && u <= 57
}

/// Whether `c` is a decimal digit of any script.
fn is_decimal_digit_char(c: char) -> (r: bool)
    ensures
        r == is_decimal_digit(c),
{
    let u = c as u32;
    (0x30 <= u && u <= 0x39) || (0x660 <= u && u <= 0x669)
    || (0x6f0 <= u && u <= 0x6f9) || (0x7c0 <= u && u <= 0x7c9)
    || (0x966 <= u && u <= 0x96f) || (0x9e6 <= u && u <= 0x9ef)
    || (0xa66 <= u && u <= 0xa6f) || (0xae6 <= u && u <= 0xaef)
    || (0xb66 <= u && u <= 0xb6f) || (0xbe6 <= u && u <= 0xbef)
    || (0xc66 <= u && u <= 0xc6f) || (0xce6 <= u && u <= 0xcef)
    || (0xd66 <= u && u <= 0xd6f) || (0xde6 <= u && u <= 0xdef)
    || (0xe50 <= u && u <= 0xe59) || (0xed0 <= u && u <= 0xed9)
    || (0xf20 <= u && u <= 0xf29) || (0x1040 <= u && u <= 0x1049)
    || (0x1090 <= u && u <= 0x1099) || (0x17e0 <= u && u <= 0x17e9)
    || (0x1810 <= u && u <= 0x1819) || (0x1946 <= u && u <= 0x194f)
    || (0x19d0 <= u && u <= 0x19d9) || (0x1a80 <= u && u <= 0x1a89)
    || (0x1a90 <= u && u <= 0x1a99) || (0x1b50 <= u && u <= 0x1b59)
    || (0x1bb0 <= u && u <= 0x1bb9) || (0x1c40 <= u && u <= 0x1c49)
    || (0x1c50 <= u && u <= 0x1c59) || (0xa620 <= u && u <= 0xa629)
    || (0xa8d0 <= u && u <= 0xa8d9) || (0xa900 <= u && u <= 0xa909)
    || (0xa9d0 <= u && u <= 0xa9d9) || (0xa9f0 <= u && u <= 0xa9f9)
    || (0xaa50 <= u && u <= 0xaa59) || (0xabf0 <= u && u <= 0xabf9)
    || (0xff10 <= u && u <= 0xff19) || (0x104a0 <= u && u <= 0x104a9)
    || (0x10d30 <= u && u <= 0x10d39) || (0x10d40 <= u && u <= 0x10d49)
    || (0x11066 <= u && u <= 0x1106f) || (0x110f0 <= u && u <= 0x110f9)
    || (0x11136 <= u && u <= 0x1113f) || (0x111d0 <= u && u <= 0x111d9)
    || (0x112f0 <= u && u <= 0x112f9) || (0x11450 <= u && u <= 0x11459)
    || (0x114d0 <= u && u <= 0x114d9) || (0x11650 <= u && u <= 0x11659)
    || (0x116c0 <= u && u <= 0x116c9) || (0x116d0 <= u && u <= 0x116e3)
    || (0x11730 <= u && u <= 0x11739) || (0x118e0 <= u && u <= 0x118e9)
    || (0x11950 <= u && u <= 0x11959) || (0x11bf0 <= u && u <= 0x11bf9)
    || (0x11c50 <= u && u <= 0x11c59) || (0x11d50 <= u && u <= 0x11d59)
    || (0x11da0 <= u && u <= 0x11da9) || (0x11f50 <= u && u <= 0x11f59)
    || (0x16130 <= u && u <= 0x16139) || (0x16a60 <= u && u <= 0x16a69)
    || (0x16ac0 <= u && u <= 0x16ac9) || (0x16b50 <= u && u <= 0x16b59)
    || (0x16d70 <= u && u <= 0x16d79) || (0x1ccf0 <= u && u <= 0x1ccf9)
    || (0x1d7ce <= u && u <= 0x1d7ff) || (0x1e140 <= u && u <= 0x1e149)
    || (0x1e2f0 <= u && u <= 0x1e2f9) || (0x1e4f0 <= u && u <= 0x1e4f9)
    || (0x1e5f1 <= u && u <= 0x1e5fa) || (0x1e950 <= u && u <= 0x1e959)
    || (0x1fbf0 <= u && u <= 0x1fbf9)
}

/// The end of the run of decimal digits that starts at `lo`.
fn scan_digits(cs: &Vec<char>, lo: usize, hi: usize) -> (k: usize)
    requires
        lo <= hi <= cs.len(),
    ensures
        lo <= k <= hi,
        k - lo == digit_run(cs@.subrange(lo as int, hi as int)),
        forall|m: int| lo <= m < k ==> is_decimal_digit(#[trigger] cs@[m]),
{
    let mut k = lo;
    while k < hi && is_decimal_digit_char(cs[k])
        invariant
            lo <= k <= hi <= cs.len(),
            digit_run(cs@.subrange(lo as int, hi as int)) == (k - lo) + digit_run(
                cs@.subrange(k as int, hi as int),
            ),
            forall|m: int| lo <= m < k ==> is_decimal_digit(#[trigger] cs@[m]),
        decreases hi - k,
    {
        assert(cs@.subrange(k as int, hi as int).drop_first() =~= cs@.subrange(
            k + 1,
            hi as int,
        ));
        k += 1;
    }
    if k < hi {
        assert(cs@.subrange(k as int, hi as int)[0] == cs@[k as int]);
    }
    k
}

/// Reads the decimal digits `cs[lo..hi]` as a `u32` the way
/// `str::parse::<u32>(..).unwrap_or(0)` does: 0 where a digit is not ASCII
/// or the value overflows.
pub fn read_priority(cs: &Vec<char>, lo: usize, hi: usize) -> (v: u32)
    requires
        lo <= hi <= cs.len(),
    ensures
        v == priority_value(cs@.subrange(lo as int, hi as int)),
{
    let ghost s = cs@.subrange(lo as int, hi as int);
    let mut acc: u64 = 0;
    let mut over = false;
    let mut i = lo;
    while i < hi
        invariant
            lo <= i <= hi <= cs.len(),
            s == cs@.subrange(lo as int, hi as int),
            forall|m: int| lo <= m < i ==> is_digit(#[trigger] cs@[m]),
            over ==> digits_value(cs@.subrange(lo as int, i as int)) > u32::MAX,
            !over ==> acc == digits_value(cs@.subrange(lo as int, i as int)),
            !over ==> acc <= u32::MAX,
        decreases hi - i,
    {
        let c = cs[i];
        if !is_digit_char(c) {
            assert(s[i - lo] == c);
            assert(!is_digit(s[i - lo]));
            return 0;
        }
        let d = (c as u32 - 48) as u64;
        assert(cs@.subrange(lo as int, i + 1).drop_last() =~= cs@.subrange(lo as int, i as int));
        if !over {
            acc = acc * 10 + d;
            if acc > 0xffff_ffff {
                over = true;
            }
        }
        i += 1;
    }
    assert forall|m: int| 0 <= m < s.len() implies is_digit(#[trigger] s[m]) by {
        assert(s[m] == cs@[lo + m]);
    }
    assert(cs@.subrange(lo as int, i as int) =~= s);
    if over {
        0
    } else {
        acc as u32
    }
}

/// Shows `trim_start` of a span as a span.
proof fn lemma_skip_sub(cs: Seq<char>, a: int, b: int, n: int)
    requires
        0 <= a,
        a + n <= b <= cs.len(),
        0 <= n,
    ensures
        cs.subrange(a, b).skip(n) == cs.subrange(a + n, b),
        cs.subrange(a, b).take(n) == cs.subrange(a, a + n),
{
    assert(cs.subrange(a, b).skip(n) =~= cs.subrange(a + n, b));
    assert(cs.subrange(a, b).take(n) =~= cs.subrange(a, a + n));
}

/// The name capture of the line `cs[lo..hi]`, as a span.
pub fn match_name(cs: &Vec<char>, lo: usize, hi: usize, pats: &CardPatterns) -> (r: Option<
    (usize, usize),
>)
    requires
        lo <= hi <= cs.len(),
        pats.wf(),
    ensures
        match r {
            Some((a, b)) => a <= b <= cs.len() && name_capture(cs@.subrange(lo as int, hi as int))
                == Some(cs@.subrange(a as int, b as int)),
            None => name_capture(cs@.subrange(lo as int, hi as int)) is None,
        },
{
    proof {
        lemma_literal_lengths();
    }
    let i = skip_space(cs, lo, hi);
    if !starts_with_exec(cs, i, hi, &pats.name) {
        return None;
    }
    proof {
        lemma_skip_sub(cs@, i as int, hi as int, 5);
    }
    let j = skip_space(cs, i + 5, hi);
    let k = scan_nonspace(cs, j, hi);
    if k == j {
        return None;
    }
    proof {
        lemma_skip_sub(cs@, j as int, hi as int, k - j);
    }
    Some((j, k))
}

/// The active profile capture of the line `cs[lo..hi]`, trimmed, as a span.
pub fn match_active(cs: &Vec<char>, lo: usize, hi: usize, pats: &CardPatterns) -> (r: Option<
    (usize, usize),
>)
    requires
        lo <= hi <= cs.len(),
        pats.wf(),
    ensures
        match r {
            Some((a, b)) => a <= b <= cs.len() && active_capture(
                cs@.subrange(lo as int, hi as int),
            ) == Some(cs@.subrange(a as int, b as int)),
            None => active_capture(cs@.subrange(lo as int, hi as int)) is None,
        },
{
    proof {
        lemma_literal_lengths();
    }
    let i = skip_space(cs, lo, hi);
    if !starts_with_exec(cs, i, hi, &pats.active) || hi - i <= 15 {
        return None;
    }
    proof {
        lemma_skip_sub(cs@, i as int, hi as int, 15);
    }
    let j = skip_space(cs, i + 15, hi);
    let k = skip_space_back(cs, j, hi);
    Some((j, k))
}

/// The index of the last `"` at or after `lo + 1` in `cs[lo..hi]`.
fn find_last_quote(cs: &Vec<char>, lo: usize, hi: usize) -> (q: Option<usize>)
    requires
        lo <= hi <= cs.len(),
    ensures
        match q {
            Some(q) => lo < q < hi && last_quote(cs@.subrange(lo as int, hi as int)) == q - lo,
            None => last_quote(cs@.subrange(lo as int, hi as int)) == -1,
        },
{
    let mut e = hi;
    while e - lo > 1
        invariant
            lo <= hi <= cs.len(),
            lo <= e <= hi,
            last_quote(cs@.subrange(lo as int, hi as int)) == last_quote(
                cs@.subrange(lo as int, e as int),
            ),
        decreases e,
    {
        assert(cs@.subrange(lo as int, e as int).last() == cs@[e - 1]);
        if cs[e - 1] == '"' {
            return Some(e - 1);
        }
        assert(cs@.subrange(lo as int, e as int).drop_last() =~= cs@.subrange(
            lo as int,
            e - 1,
        ));
        e -= 1;
    }
    None
}

/// The label capture of the line `cs[lo..hi]`, as a span.
pub fn match_label(cs: &Vec<char>, lo: usize, hi: usize, pats: &CardPatterns) -> (r: Option<
    (usize, usize),
>)
    requires
        lo <= hi <= cs.len(),
        pats.wf(),
    ensures
        match r {
            Some((a, b)) => a <= b <= cs.len() && label_capture(cs@.subrange(lo as int, hi as int))
                == Some(cs@.subrange(a as int, b as int)),
            None => label_capture(cs@.subrange(lo as int, hi as int)) is None,
        },
{
    proof {
        lemma_literal_lengths();
    }
    let i = skip_space(cs, lo, hi);
    if !starts_with_exec(cs, i, hi, &pats.label) {
        return None;
    }
    proof {
        lemma_skip_sub(cs@, i as int, hi as int, 14);
    }
    let j = skip_space(cs, i + 14, hi);
    if j >= hi || cs[j] != '=' {
        return None;
    }
    proof {
        lemma_skip_sub(cs@, j as int, hi as int, 1);
    }
    let k = skip_space(cs, j + 1, hi);
    if k >= hi || cs[k] != '"' {
        return None;
    }
    proof {
        lemma_skip_sub(cs@, k as int, hi as int, 1);
    }
    match find_last_quote(cs, k + 1, hi) {
        Some(q) => {
            proof {
                lemma_skip_sub(cs@, k + 1, hi as int, q - (k + 1));
            }
            Some((k + 1, q))
        },
        None => None,
    }
}

/// Whether the line `cs[lo..hi]` names an HDMI port.
pub fn match_hdmi(cs: &Vec<char>, lo: usize, hi: usize, pats: &CardPatterns) -> (r: bool)
    requires
        lo <= hi <= cs.len(),
        pats.wf(),
    ensures
        r == hdmi_line(cs@.subrange(lo as int, hi as int)),
{
    contains_exec(cs, lo, hi, &pats.hdmi)
}

/// `avail_match` on `cs[lo..hi]`: the digit span and the availability.
fn match_avail(cs: &Vec<char>, lo: usize, hi: usize, pats: &CardPatterns) -> (r: Option<
    (usize, usize, bool),
>)
    requires
        lo <= hi <= cs.len(),
        pats.wf(),
    ensures
        match r {
            Some((a, b, y)) => a <= b <= cs.len() && (forall|m: int|
                a <= m < b ==> is_decimal_digit(#[trigger] cs@[m])) && avail_match(
                cs@.subrange(lo as int, hi as int),
            ) == Some((cs@.subrange(a as int, b as int), y)),
            None => avail_match(cs@.subrange(lo as int, hi as int)) is None,
        },
{
    proof {
        lemma_literal_lengths();
    }
    let i = skip_space(cs, lo, hi);
    let d = scan_digits(cs, i, hi);
    if d == i || d >= hi || cs[d] != ',' {
        proof {
            if d > i && d < hi {
                assert(cs@.subrange(i as int, hi as int)[d - i] == cs@[d as int]);
            }
        }
        return None;
    }
    proof {
        assert(cs@.subrange(i as int, hi as int)[d - i] == cs@[d as int]);
        lemma_skip_sub(cs@, i as int, hi as int, d - i + 1);
        lemma_skip_sub(cs@, i as int, hi as int, d - i);
    }
    let j = skip_space(cs, d + 1, hi);
    if !starts_with_exec(cs, j, hi, &pats.available) {
        return None;
    }
    proof {
        lemma_skip_sub(cs@, j as int, hi as int, 10);
    }
    let k = skip_space(cs, j + 10, hi);
    if starts_with_exec(cs, k, hi, &pats.yes) {
        Some((i, d, true))
    } else if starts_with_exec(cs, k, hi, &pats.no) {
        Some((i, d, false))
    } else {
        None
    }
}

/// `priority_match` on `cs[lo..hi]`.
fn match_priority(cs: &Vec<char>, lo: usize, hi: usize, pats: &CardPatterns) -> (r: Option<
    (usize, usize, bool),
>)
    requires
        lo <= hi <= cs.len(),
        pats.wf(),
    ensures
        match r {
            Some((a, b, y)) => a <= b <= cs.len() && (forall|m: int|
                a <= m < b ==> is_decimal_digit(#[trigger] cs@[m])) && priority_match(
                cs@.subrange(lo as int, hi as int),
            ) == Some((cs@.subrange(a as int, b as int), y)),
            None => priority_match(cs@.subrange(lo as int, hi as int)) is None,
        },
{
    proof {
        lemma_literal_lengths();
    }
    let ghost t = cs@.subrange(lo as int, hi as int);
    let mut p: usize = hi - lo;
    loop
        invariant
            lo <= hi <= cs.len(),
            p <= hi - lo,
            pats.wf(),
            t == cs@.subrange(lo as int, hi as int),
            priority_match(t) == priority_search(t, p as int),
            "priority:"@.len() == 9,
        decreases p,
    {
        let found = occurs_at_exec(cs, lo, hi, &pats.priority, lo + p);
        if found {
            proof {
                lemma_skip_sub(cs@, lo as int, hi as int, p + 9);
            }
            let m = match_avail(cs, lo + p + 9, hi, pats);
            if m.is_some() {
                return m;
            }
        }
        if p == 0 {
            assert(priority_search(t, -1) is None);
            return None;
        }
        p -= 1;
    }
}

/// The profile captures of the line `cs[lo..hi]`: name span, digit span,
/// availability.
pub fn match_profile(cs: &Vec<char>, lo: usize, hi: usize, pats: &CardPatterns) -> (r: Option<
    (usize, usize, usize, usize, bool),
>)
    requires
        lo <= hi <= cs.len(),
        pats.wf(),
    ensures
        match r {
            Some((a, b, c, d, y)) => a <= b <= cs.len() && c <= d <= cs.len() && (forall|m: int|
                c <= m < d ==> is_decimal_digit(#[trigger] cs@[m])) && profile_capture(
                cs@.subrange(lo as int, hi as int),
            ) == Some(
                (cs@.subrange(a as int, b as int), cs@.subrange(c as int, d as int), y),
            ),
            None => profile_capture(cs@.subrange(lo as int, hi as int)) is None,
        },
{
    let ghost l = cs@.subrange(lo as int, hi as int);
    if lo == hi || !is_space_char(cs[lo]) {
        return None;
    }
    assert(l[0] == cs@[lo as int]);
    let i = skip_space(cs, lo, hi);
    let w = scan_nonspace(cs, i, hi);
    let ghost a = cs@.subrange(i as int, hi as int);
    if w == i {
        return None;
    }
    let mut k: usize = w - i - 1;
    loop
        invariant
            lo <= i <= w <= hi <= cs.len(),
            pats.wf(),
            a == cs@.subrange(i as int, hi as int),
            w - i == nonspace_run(a),
            k < w - i,
            profile_capture(l) == name_search(a, k as int),
            l == cs@.subrange(lo as int, hi as int),
            trim_start(l) == a,
        decreases k,
    {
        if k == 0 {
            return None;
        }
        assert(a[k as int] == cs@[i + k]);
        if cs[i + k] == ':' {
            proof {
                lemma_skip_sub(cs@, i as int, hi as int, k + 1);
                lemma_skip_sub(cs@, i as int, hi as int, k as int);
            }
            let m = match_priority(cs, i + k + 1, hi, pats);
            match m {
                Some((c, d, y)) => {
                    return Some((i, i + k, c, d, y));
                },
                None => {},
            }
        }
        k -= 1;
    }
}

} // verus!

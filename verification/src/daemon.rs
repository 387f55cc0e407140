//! The daemon's control protocol and its decisions.
//!
//! Clients send one datagram per command to the daemon's socket: `reload`,
//! `cycle` (alias `toggle`), or `cycle PROFILE` (alias `toggle PROFILE`),
//! with surrounding whitespace ignored.  The daemon reacts to commands, to
//! signals and to suspend/resume; what it does for each is decided here.
use vstd::prelude::*;
use vstd::utf8::{decode_utf8, encode_utf8, valid_utf8};
use crate::config::Config;
use crate::events::{SignalKind, SleepTransition};
use crate::pactl::opt_view;
use crate::card_lines::{digits_value, is_digit, nonspace_run};
use crate::text::{
    append_str, chars_eq, chars_of, decimal, is_space, line_spans, lines, push_decimal,
    skip_space, skip_space_back, starts_with, starts_with_exec, string_of, trim, trim_end, trim_start,
};

verus! {

/// A command received on the control socket.
#[derive(Debug, PartialEq, Eq)]
pub enum Command {
    /// Cycle the card, to the given profile or the configured one.
    Cycle(Option<String>),
    /// Re-read the configuration file.
    Reload,
}

/// The value of a command.
pub enum CommandView {
    Cycle(Option<Seq<char>>),
    Reload,
}

impl View for Command {
    type V = CommandView;

    open spec fn view(&self) -> CommandView {
        match self {
            Command::Cycle(p) => CommandView::Cycle(opt_view(*p)),
            Command::Reload => CommandView::Reload,
        }
    }
}

/// Why a datagram is not a command.
#[derive(Debug, PartialEq, Eq)]
pub enum DecodeError {
    /// The bytes are not UTF-8; the text says where they fail.
    InvalidUtf8(String),
    /// The text, trimmed, is no command.
    Unsupported(String),
}

/// The value of a decoding error: the trimmed text of an unsupported
/// command.
pub enum DecodeErrorView {
    InvalidUtf8,
    Unsupported(Seq<char>),
}

impl View for DecodeError {
    type V = DecodeErrorView;

    open spec fn view(&self) -> DecodeErrorView {
        match self {
            DecodeError::InvalidUtf8(_) => DecodeErrorView::InvalidUtf8,
            DecodeError::Unsupported(t) => DecodeErrorView::Unsupported(t@),
        }
    }
}

/// The command that a trimmed text names.
pub open spec fn command_of(t: Seq<char>) -> Result<CommandView, DecodeErrorView> {
    if t == "reload"@ {
        Ok(CommandView::Reload)
    } else if t == "cycle"@ || t == "toggle"@ {
        Ok(CommandView::Cycle(None))
    } else if starts_with(t, "cycle "@) {
        Ok(CommandView::Cycle(Some(t.skip(6))))
    } else if starts_with(t, "toggle "@) {
        Ok(CommandView::Cycle(Some(t.skip(7))))
    } else {
        Err(DecodeErrorView::Unsupported(t))
    }
}

/// The command that a datagram carries.
pub open spec fn decode_spec(bytes: Seq<u8>) -> Result<CommandView, DecodeErrorView> {
    if valid_utf8(bytes) {
        command_of(trim(decode_utf8(bytes)))
    } else {
        Err(DecodeErrorView::InvalidUtf8)
    }
}

/// Reads bytes as UTF-8 text (`std::str::from_utf8`): text exactly when the
/// bytes are valid UTF-8, and then the characters they encode; otherwise
/// the description of the failure that `Utf8Error` displays (not stated).
#[verifier::external_body]
fn utf8_text(bytes: &[u8]) -> (r: Result<&str, String>)
    ensures
        r is Ok <==> valid_utf8(bytes@),
        r matches Ok(s) ==> s@ == decode_utf8(bytes@),
{
    std::str::from_utf8(bytes).map_err(|e| e.to_string())
}

proof fn lemma_literal_lengths()
    ensures
        "cycle "@.len() == 6,
        "toggle "@.len() == 7,
{
    reveal_strlit("cycle ");
    reveal_strlit("toggle ");
}

/// Decodes one datagram of the control protocol.
pub fn decode_command(data: &[u8]) -> (r: Result<Command, DecodeError>)
    ensures
        match r {
            Ok(c) => decode_spec(data@) == Ok::<_, DecodeErrorView>(c@),
            Err(e) => decode_spec(data@) == Err::<CommandView, _>(e@),
        },
{
    proof {
        lemma_literal_lengths();
    }
    let text = match utf8_text(data) {
        Ok(t) => t,
        Err(msg) => {
            return Err(DecodeError::InvalidUtf8(msg));
        },
    };
    let cs = chars_of(text);
    let a = skip_space(&cs, 0, cs.len());
    let b = skip_space_back(&cs, a, cs.len());
    assert(cs@.subrange(0, cs@.len() as int) =~= cs@);
    assert(cs@.subrange(a as int, b as int) == trim(cs@));
    if chars_eq(&cs, a, b, &chars_of("reload")) {
        return Ok(Command::Reload);
    }
    if chars_eq(&cs, a, b, &chars_of("cycle")) || chars_eq(&cs, a, b, &chars_of("toggle")) {
        return Ok(Command::Cycle(None));
    }
    if starts_with_exec(&cs, a, b, &chars_of("cycle ")) {
        assert(cs@.subrange(a as int, b as int).skip(6) =~= cs@.subrange(a + 6, b as int));
        return Ok(Command::Cycle(Some(string_of(&cs, a + 6, b))));
    }
    if starts_with_exec(&cs, a, b, &chars_of("toggle ")) {
        assert(cs@.subrange(a as int, b as int).skip(7) =~= cs@.subrange(a + 7, b as int));
        return Ok(Command::Cycle(Some(string_of(&cs, a + 7, b))));
    }
    Err(DecodeError::Unsupported(string_of(&cs, a, b)))
}

impl DecodeError {
    /// The error's message.
    pub fn message(&self) -> (s: String)
        ensures
            self matches DecodeError::Unsupported(t) ==> s@ == "Unsupported command: "@ + t@,
            self matches DecodeError::InvalidUtf8(m) ==> s@ == m@,
    {
        match self {
            DecodeError::InvalidUtf8(m) => m.clone(),
            DecodeError::Unsupported(t) => {
                let mut s = "Unsupported command: ".to_owned();
                append_str(&mut s, t.as_str());
                s
            },
        }
    }
}

// ---------------------------------------------------------------------------
// Decisions
// ---------------------------------------------------------------------------
/// Something that happened to the daemon.
pub enum Event {
    /// The login manager announced a suspend or a resume.
    Sleep(SleepTransition),
    /// The stream of suspend announcements ended.
    SleepFeedClosed,
    /// A signal arrived.
    Signal(SignalKind),
    /// A datagram arrived on the control socket.
    Message(Vec<u8>),
}

/// What the daemon does in response.
#[derive(Debug, PartialEq, Eq)]
pub enum Action {
    /// Nothing beyond noting the event.
    Ignore,
    /// Shut down.
    Stop,
    /// Re-read the configuration file.
    Reload,
    /// Wait for HDMI to renegotiate, then cycle `card` back to `profile`.
    CycleAfterWake { card: String, profile: String },
    /// Cycle `card` back to `profile` now.
    Cycle { card: String, profile: String },
    /// Warn that a datagram was refused.
    Refuse(DecodeError),
}

/// The value of an action.
pub enum ActionView {
    Ignore,
    Stop,
    Reload,
    CycleAfterWake(Seq<char>, Seq<char>),
    Cycle(Seq<char>, Seq<char>),
    Refuse(DecodeErrorView),
}

impl View for Action {
    type V = ActionView;

    open spec fn view(&self) -> ActionView {
        match self {
            Action::Ignore => ActionView::Ignore,
            Action::Stop => ActionView::Stop,
            Action::Reload => ActionView::Reload,
            Action::CycleAfterWake { card, profile } => ActionView::CycleAfterWake(card@, profile@),
            Action::Cycle { card, profile } => ActionView::Cycle(card@, profile@),
            Action::Refuse(e) => ActionView::Refuse(e@),
        }
    }
}

/// An optional text, empty when absent.
pub open spec fn or_empty(o: Option<Seq<char>>) -> Seq<char> {
    match o {
        Some(s) => s,
        None => seq![],
    }
}

/// The first of two optional texts that is present.
pub open spec fn first_of(a: Option<Seq<char>>, b: Option<Seq<char>>) -> Option<Seq<char>> {
    match a {
        Some(x) => Some(x),
        None => b,
    }
}

/// What the daemon does on `event` with the settings `config`.
pub open spec fn response(config: Config, event: Event) -> ActionView {
    match event {
        Event::Sleep(SleepTransition::Sleeping) => ActionView::Ignore,
        Event::Sleep(SleepTransition::Waking) => ActionView::CycleAfterWake(
            or_empty(opt_view(config.card)),
            or_empty(opt_view(config.profile)),
        ),
        Event::SleepFeedClosed => ActionView::Stop,
        Event::Signal(SignalKind::Stop) => ActionView::Stop,
        Event::Signal(SignalKind::Reload) => ActionView::Reload,
        Event::Message(data) => match decode_spec(data@) {
            Ok(CommandView::Reload) => ActionView::Reload,
            Ok(CommandView::Cycle(p)) => ActionView::Cycle(
                or_empty(opt_view(config.card)),
                or_empty(first_of(p, opt_view(config.profile))),
            ),
            Err(e) => ActionView::Refuse(e),
        },
    }
}

/// An optional string, empty when absent (`unwrap_or_default`).
fn text_or_empty(o: &Option<String>) -> (s: String)
    ensures
        s@ == or_empty(opt_view(*o)),
{
    match o {
        Some(x) => x.clone(),
        None => String::new(),
    }
}

/// Decides what the daemon does on `event`: resume cycles the configured
/// card back to the configured profile after a pause; a `cycle` command does
/// so at once, to its own profile if it names one; `reload` and the reload
/// signal re-read the configuration; the stop signal and the end of the
/// suspend feed stop the daemon; refused datagrams are warned about.
pub fn on_event(config: &Config, event: &Event) -> (a: Action)
    ensures
        a@ == response(*config, *event),
{
    match event {
        Event::Sleep(SleepTransition::Sleeping) => Action::Ignore,
        Event::Sleep(SleepTransition::Waking) => Action::CycleAfterWake {
            card: text_or_empty(&config.card),
            profile: text_or_empty(&config.profile),
        },
        Event::SleepFeedClosed => Action::Stop,
        Event::Signal(SignalKind::Stop) => Action::Stop,
        Event::Signal(SignalKind::Reload) => Action::Reload,
        Event::Message(data) => match decode_command(data.as_slice()) {
            Ok(Command::Reload) => Action::Reload,
            Ok(Command::Cycle(p)) => {
                let profile = match p {
                    Some(x) => x,
                    None => text_or_empty(&config.profile),
                };
                Action::Cycle { card: text_or_empty(&config.card), profile }
            },
            Err(e) => Action::Refuse(e),
        },
    }
}

/// What the daemon does, event by event: a suspend is only noted; a resume
/// cycles the configured card back to the configured profile after the
/// pause; the end of the suspend feed and the stop signal stop it; the reload
/// signal, and a datagram whose text (trimmed) is `reload`, make it re-read
/// its configuration; a datagram `cycle PROFILE` cycles the configured card
/// to PROFILE at once, a bare `cycle` to the configured profile; bytes that
/// are not UTF-8 are refused.
pub proof fn law_daemon_responses(config: Config, data: Vec<u8>, profile: Seq<char>)
    ensures
        response(config, Event::Sleep(SleepTransition::Sleeping)) == ActionView::Ignore,
        response(config, Event::Sleep(SleepTransition::Waking)) == ActionView::CycleAfterWake(
            match config.card {
                Some(c) => c@,
                None => seq![],
            },
            match config.profile {
                Some(p) => p@,
                None => seq![],
            },
        ),
        response(config, Event::SleepFeedClosed) == ActionView::Stop,
        response(config, Event::Signal(SignalKind::Stop)) == ActionView::Stop,
        response(config, Event::Signal(SignalKind::Reload)) == ActionView::Reload,
        valid_utf8(data@) && trim(decode_utf8(data@)) == "reload"@ ==> response(
            config,
            Event::Message(data),
        ) == ActionView::Reload,
        valid_utf8(data@) && trim(decode_utf8(data@)) == "cycle "@ + profile ==> response(
            config,
            Event::Message(data),
        ) == ActionView::Cycle(
            match config.card {
                Some(c) => c@,
                None => seq![],
            },
            profile,
        ),
        valid_utf8(data@) && trim(decode_utf8(data@)) == "cycle"@ ==> response(
            config,
            Event::Message(data),
        ) == ActionView::Cycle(
            match config.card {
                Some(c) => c@,
                None => seq![],
            },
            match config.profile {
                Some(p) => p@,
                None => seq![],
            },
        ),
        !valid_utf8(data@) ==> response(config, Event::Message(data)) == ActionView::Refuse(
            DecodeErrorView::InvalidUtf8,
        ),
{
    reveal_strlit("cycle ");
    reveal_strlit("cycle");
    reveal_strlit("toggle");
    reveal_strlit("reload");
    let t = "cycle "@ + profile;
    if valid_utf8(data@) && trim(decode_utf8(data@)) == t {
        assert(t != "reload"@) by {
            assert(t[1] != "reload"@[1]);
        }
        assert(t != "toggle"@) by {
            assert(t[0] != "toggle"@[0]);
        }
        assert(t.len() != "cycle"@.len());
        assert(t.subrange(0, 6) =~= "cycle "@);
        assert(t.skip(6) =~= profile);
    }
}

/// `toggle` is another name for `cycle`: whenever a text beginning with
/// `toggle` is a command, putting `cycle` in its place gives the same
/// command.
pub proof fn law_toggle_is_cycle(rest: Seq<char>)
    ensures
        command_of("toggle"@ + rest) is Ok ==> command_of("toggle"@ + rest) == command_of(
            "cycle"@ + rest,
        ),
{
    reveal_strlit("toggle");
    reveal_strlit("cycle");
    reveal_strlit("reload");
    reveal_strlit("toggle ");
    reveal_strlit("cycle ");
    let t = "toggle"@ + rest;
    let c = "cycle"@ + rest;
    if command_of(t) is Ok {
        assert(t != "reload"@) by {
            assert(t[0] != "reload"@[0]);
        }
        assert(t != "cycle"@) by {
            assert(t[0] != "cycle"@[0]);
        }
        assert(!starts_with(t, "cycle "@)) by {
            assert(t.subrange(0, 6)[0] != "cycle "@[0]);
        }
        assert(c != "reload"@) by {
            assert(c[0] != "reload"@[0]);
        }
        assert(c != "toggle"@) by {
            assert(c[0] != "toggle"@[0]);
        }
        assert(!starts_with(c, "toggle "@)) by {
            if c.len() >= 7 {
                assert(c.subrange(0, 7)[0] != "toggle "@[0]);
            }
        }
        if t == "toggle"@ {
            assert(rest.len() == 0);
            assert(c =~= "cycle"@);
        } else {
            assert(!(t == "cycle"@ || t == "toggle"@));
            assert(starts_with(t, "toggle "@));
            assert(t.subrange(0, 7)[6] == "toggle "@[6]);
            assert(t[6] == ' ');
            assert(rest[0] == t[6]);
            assert(c.subrange(0, 6) =~= "cycle "@);
            assert(c != "cycle"@);
            assert(t.skip(7) =~= c.skip(6));
        }
    }
}

// ---------------------------------------------------------------------------
// The user id in /proc/self/status
// ---------------------------------------------------------------------------
/// A decimal `u32` as `str::parse` reads it: an optional `+`, then one or
/// more ASCII digits, the value fitting in 32 bits.
pub open spec fn parse_u32(w: Seq<char>) -> Option<u32> {
    let d = without_plus(w);
    if d.len() > 0 && (forall|i: int| 0 <= i < d.len() ==> is_digit(#[trigger] d[i]))
        && digits_value(d) <= u32::MAX {
        Some(digits_value(d) as u32)
    } else {
        None
    }
}

/// A text without its leading `+`, if any.
pub open spec fn without_plus(w: Seq<char>) -> Seq<char> {
    if w.len() > 0 && w[0] == '+' {
        w.skip(1)
    } else {
        w
    }
}

/// The second whitespace-separated word of `s`, if it has two.
pub open spec fn second_word(s: Seq<char>) -> Option<Seq<char>> {
    let a = trim_start(s);
    let w1 = nonspace_run(a);
    let b = trim_start(a.skip(w1));
    let w2 = nonspace_run(b);
    if w1 > 0 && w2 > 0 {
        Some(b.take(w2))
    } else {
        None
    }
}

/// What follows `Uid:` on the first line that begins with it.
pub open spec fn uid_line(ls: Seq<Seq<char>>) -> Option<Seq<char>>
    decreases ls.len(),
{
    if ls.len() == 0 {
        None
    } else if starts_with(ls[0], "Uid:"@) {
        Some(ls[0].skip(4))
    } else {
        uid_line(ls.drop_first())
    }
}

/// The effective user id that a `/proc/self/status` text states.
pub open spec fn status_uid(text: Seq<char>) -> Option<u32> {
    match uid_line(lines(text)) {
        Some(rest) => match second_word(rest) {
            Some(w) => parse_u32(w),
            None => None,
        },
        None => None,
    }
}

/// A string of digits is worth at least any of its prefixes.
proof fn lemma_digits_value_grows(d: Seq<char>, k: int)
    requires
        0 <= k <= d.len(),
        forall|m: int| 0 <= m < d.len() ==> is_digit(#[trigger] d[m]),
    ensures
        digits_value(d) >= digits_value(d.take(k)),
    decreases d.len(),
{
    if k < d.len() {
        assert forall|m: int| 0 <= m < d.drop_last().len() implies is_digit(
            #[trigger] d.drop_last()[m],
        ) by {
            assert(d.drop_last()[m] == d[m]);
        }
        lemma_digits_value_grows(d.drop_last(), k);
        assert(d.drop_last().take(k) =~= d.take(k));
    } else {
        assert(d.take(k) =~= d);
    }
}

/// Reads `cs[lo..hi]` as a `u32` the way `str::parse` does.
fn parse_u32_exec(cs: &Vec<char>, lo: usize, hi: usize) -> (r: Option<u32>)
    requires
        lo <= hi <= cs.len(),
    ensures
        r == parse_u32(cs@.subrange(lo as int, hi as int)),
{
    let ghost w = cs@.subrange(lo as int, hi as int);
    let start = if lo < hi && cs[lo] == '+' {
        lo + 1
    } else {
        lo
    };
    proof {
        if lo < hi {
            assert(w[0] == cs@[lo as int]);
        }
        if start == lo + 1 {
            assert(w.skip(1) =~= cs@.subrange(start as int, hi as int));
        } else {
            assert(w =~= cs@.subrange(start as int, hi as int));
        }
    }
    let ghost d = cs@.subrange(start as int, hi as int);
    assert(without_plus(w) == d);
    if start == hi {
        assert(d.len() == 0);
        return None;
    }
    let mut acc: u64 = 0;
    let mut i = start;
    assert(cs@.subrange(start as int, start as int).len() == 0);
    while i < hi
        invariant
            lo <= start < hi <= cs.len(),
            start <= i <= hi,
            w == cs@.subrange(lo as int, hi as int),
            d == cs@.subrange(start as int, hi as int),
            without_plus(w) == d,
            forall|m: int| start <= m < i ==> is_digit(#[trigger] cs@[m]),
            acc == digits_value(cs@.subrange(start as int, i as int)),
            acc <= u32::MAX,
        decreases hi - i,
    {
        let c = cs[i];
        if !crate::card_lines::is_digit_char(c) {
            assert(d[i - start] == cs@[i as int]);
            assert(!is_digit(d[i - start]));
            return None;
        }
        let ghost pre = cs@.subrange(start as int, i + 1);
        assert(pre.drop_last() =~= cs@.subrange(start as int, i as int));
        assert(pre.last() == c);
        let dv: u32 = (c as u32) - 48;
        acc = acc * 10 + dv as u64;
        assert(acc == digits_value(pre));
        if acc > 0xffff_ffff {
            proof {
                assert(d.take(i + 1 - start) =~= pre);
                if forall|m: int| 0 <= m < d.len() ==> is_digit(#[trigger] d[m]) {
                    lemma_digits_value_grows(d, i + 1 - start);
                }
            }
            return None;
        }
        i += 1;
    }
    assert forall|m: int| 0 <= m < d.len() implies is_digit(#[trigger] d[m]) by {
        assert(d[m] == cs@[start + m]);
    }
    assert(cs@.subrange(start as int, i as int) =~= d);
    Some(acc as u32)
}

/// The user id that the rest of a `Uid:` line, `cs[lo..hi]`, states: its
/// second word read as a `u32`.
fn uid_in_rest(cs: &Vec<char>, lo: usize, hi: usize) -> (r: Option<u32>)
    requires
        lo <= hi <= cs.len(),
    ensures
        r == match second_word(cs@.subrange(lo as int, hi as int)) {
            Some(w) => parse_u32(w),
            None => None,
        },
{
    let a = skip_space(cs, lo, hi);
    let w1 = crate::card_lines::scan_nonspace(cs, a, hi);
    proof {
        assert(cs@.subrange(a as int, hi as int).skip(w1 - a) =~= cs@.subrange(w1 as int, hi as int));
    }
    let b = skip_space(cs, w1, hi);
    let w2 = crate::card_lines::scan_nonspace(cs, b, hi);
    if w1 == a || w2 == b {
        return None;
    }
    assert(cs@.subrange(b as int, hi as int).take(w2 - b) =~= cs@.subrange(b as int, w2 as int));
    parse_u32_exec(cs, b, w2)
}

/// The effective user id stated in the text of `/proc/self/status`: the
/// second word after `Uid:` on the first line that begins with `Uid:`.
pub fn uid_from_status(text: &str) -> (r: Option<u32>)
    ensures
        r == status_uid(text@),
{
    proof {
        reveal_strlit("Uid:");
    }
    let cs = chars_of(text);
    let spans = line_spans(&cs);
    let ghost ls = lines(cs@);
    let pre = chars_of("Uid:");
    let mut i: usize = 0;
    assert(ls.skip(0) =~= ls);
    while i < spans.len()
        invariant
            cs@ == text@,
            ls == lines(cs@),
            spans.len() == ls.len(),
            forall|k: int|
                0 <= k < spans.len() ==> {
                    &&& (#[trigger] spans@[k]).0 <= spans@[k].1 <= cs.len()
                    &&& cs@.subrange(spans@[k].0 as int, spans@[k].1 as int) == ls[k]
                },
            i <= spans.len(),
            pre@ == "Uid:"@,
            "Uid:"@.len() == 4,
            uid_line(ls) == uid_line(ls.skip(i as int)),
        decreases spans.len() - i,
    {
        let (lo, hi) = spans[i];
        assert(ls.skip(i as int)[0] == ls[i as int]);
        if starts_with_exec(&cs, lo, hi, &pre) {
            assert(ls[i as int].skip(4) =~= cs@.subrange(lo + 4, hi as int));
            return uid_in_rest(&cs, lo + 4, hi);
        }
        assert(ls.skip(i as int).drop_first() =~= ls.skip(i + 1));
        i += 1;
    }
    None
}

/// A run of non-whitespace ends at the first whitespace.
proof fn lemma_nonspace_run_word(a: Seq<char>, rest: Seq<char>)
    requires
        forall|i: int| 0 <= i < a.len() ==> !is_space(#[trigger] a[i]),
        rest.len() == 0 || is_space(rest[0]),
    ensures
        nonspace_run(a + rest) == a.len(),
    decreases a.len(),
{
    if a.len() == 0 {
        assert(a + rest =~= rest);
    } else {
        let t = a.drop_first();
        assert forall|i: int| 0 <= i < t.len() implies !is_space(#[trigger] t[i]) by {
            assert(t[i] == a[i + 1]);
        }
        lemma_nonspace_run_word(t, rest);
        assert((a + rest).drop_first() =~= t + rest);
        assert((a + rest)[0] == a[0]);
    }
}

/// The digit character of `k < 10` is the ASCII digit whose code is `48 + k`.
proof fn lemma_digit_char(k: int)
    requires
        0 <= k < 10,
    ensures
        (crate::text::digit_char(k) as u32) == k + 48,
        is_digit(crate::text::digit_char(k)),
{
    assert(((k + 48) as char) as u32 == k + 48);
}

/// The digits of a number, read back, give the number.
proof fn lemma_decimal_digits(n: nat)
    ensures
        decimal(n).len() > 0,
        forall|i: int| 0 <= i < decimal(n).len() ==> is_digit(#[trigger] decimal(n)[i]),
        digits_value(decimal(n)) == n,
    decreases n,
{
    let d = decimal(n);
    if n >= 10 {
        lemma_decimal_digits(n / 10);
        let p = decimal(n / 10);
        let k = (n % 10) as int;
        lemma_digit_char(k);
        assert(d == p.push(crate::text::digit_char(k)));
        assert(d.drop_last() =~= p);
        assert(d.last() == crate::text::digit_char(k));
        assert forall|i: int| 0 <= i < d.len() implies is_digit(#[trigger] d[i]) by {
            if i < p.len() {
                assert(d[i] == p[i]);
            }
        }
        assert(digits_value(d) == digits_value(p) * 10 + k);
        assert((n / 10) * 10 + n % 10 == n);
    } else {
        lemma_digit_char(n as int);
        assert(d == seq![crate::text::digit_char(n as int)]);
        assert(d.drop_last() =~= Seq::<char>::empty());
        assert(d.last() == crate::text::digit_char(n as int));
        assert(digits_value(d.drop_last()) == 0);
        assert(digits_value(d) == digits_value(d.drop_last()) * 10 + ((d.last() as u32) - 48) as nat);
    }
}

/// The rest of the first line that begins with `Uid:`.
proof fn lemma_uid_line(ls: Seq<Seq<char>>)
    ensures
        (forall|i: int| 0 <= i < ls.len() ==> !starts_with(#[trigger] ls[i], "Uid:"@))
            ==> uid_line(ls) is None,
        forall|i: int|
            0 <= i < ls.len() && starts_with(#[trigger] ls[i], "Uid:"@) && (forall|j: int|
                0 <= j < i ==> !starts_with(#[trigger] ls[j], "Uid:"@)) ==> uid_line(ls) == Some(
                ls[i].skip(4),
            ),
    decreases ls.len(),
{
    if ls.len() > 0 {
        let t = ls.drop_first();
        lemma_uid_line(t);
        if !starts_with(ls[0], "Uid:"@) {
            assert forall|i: int|
                0 <= i < ls.len() && starts_with(#[trigger] ls[i], "Uid:"@) && (forall|j: int|
                    0 <= j < i ==> !starts_with(#[trigger] ls[j], "Uid:"@)) implies uid_line(ls)
                == Some(ls[i].skip(4)) by {
                assert(i > 0);
                assert(t[i - 1] == ls[i]);
                assert forall|j: int| 0 <= j < i - 1 implies !starts_with(#[trigger] t[j], "Uid:"@) by {
                    assert(t[j] == ls[j + 1]);
                }
            }
            if forall|i: int| 0 <= i < ls.len() ==> !starts_with(#[trigger] ls[i], "Uid:"@) {
                assert forall|i: int| 0 <= i < t.len() implies !starts_with(#[trigger] t[i], "Uid:"@) by {
                    assert(t[i] == ls[i + 1]);
                }
            }
        }
    }
}

/// The second word after a separator, a first word and a separator.
proof fn lemma_second_word(first: Seq<char>, sep: char, w: Seq<char>, more: Seq<char>)
    requires
        first.len() > 0,
        forall|i: int| 0 <= i < first.len() ==> !is_space(#[trigger] first[i]),
        w.len() > 0,
        forall|i: int| 0 <= i < w.len() ==> !is_space(#[trigger] w[i]),
        is_space(sep),
        more.len() == 0 || is_space(more[0]),
    ensures
        second_word(seq![sep] + first + seq![sep] + w + more) == Some(w),
{
    let y = seq![sep] + w + more;
    let a = first + y;
    let x = seq![sep] + first + seq![sep] + w + more;
    assert(x[0] == sep);
    assert(x.drop_first() =~= a);
    assert(trim_start(a) == a) by {
        assert(a[0] == first[0]);
    }
    assert(trim_start(x) == a);
    lemma_nonspace_run_word(first, y);
    assert(a.skip(first.len() as int) =~= y);
    assert(y[0] == sep);
    assert(y.drop_first() =~= w + more);
    assert(trim_start(w + more) == w + more) by {
        assert((w + more)[0] == w[0]);
    }
    assert(trim_start(y) == w + more);
    lemma_nonspace_run_word(w, more);
    assert((w + more).take(w.len() as int) =~= w);
}

/// How the effective user id is found: the rest of the first line that
/// begins with `Uid:` (none without such a line); the second of the
/// whitespace-separated words of such a rest, the first being the real
/// user id; and that word read as the decimal number it writes, with or
/// without a leading `+`.
pub proof fn law_uid_fields(
    ls: Seq<Seq<char>>,
    real_id: Seq<char>,
    sep: char,
    effective: u32,
    more: Seq<char>,
)
    ensures
        (forall|i: int| 0 <= i < ls.len() ==> !starts_with(#[trigger] ls[i], "Uid:"@))
            ==> uid_line(ls) is None,
        forall|i: int|
            0 <= i < ls.len() && starts_with(#[trigger] ls[i], "Uid:"@) && (forall|j: int|
                0 <= j < i ==> !starts_with(#[trigger] ls[j], "Uid:"@)) ==> uid_line(ls) == Some(
                ls[i].skip(4),
            ),
        real_id.len() > 0 && (forall|i: int| 0 <= i < real_id.len() ==> !is_space(#[trigger] real_id[i]))
            && is_space(sep) && (more.len() == 0 || is_space(more[0])) ==> second_word(
            seq![sep] + real_id + seq![sep] + decimal(effective as nat) + more,
        ) == Some(decimal(effective as nat)),
        parse_u32(decimal(effective as nat)) == Some(effective),
        parse_u32(seq!['+'] + decimal(effective as nat)) == Some(effective),
{
    lemma_uid_line(ls);
    let w = decimal(effective as nat);
    lemma_decimal_digits(effective as nat);
    assert forall|i: int| 0 <= i < w.len() implies !is_space(#[trigger] w[i]) by {
        assert(is_digit(w[i]));
    }
    if real_id.len() > 0 && (forall|i: int| 0 <= i < real_id.len() ==> !is_space(#[trigger] real_id[i]))
        && is_space(sep) && (more.len() == 0 || is_space(more[0])) {
        lemma_second_word(real_id, sep, w, more);
    }
    assert(w[0] != '+') by {
        assert(is_digit(w[0]));
    }
    assert(without_plus(w) == w);
    let pw = seq!['+'] + w;
    assert(pw[0] == '+');
    assert(pw.skip(1) =~= w);
}

// ---------------------------------------------------------------------------
// Requests sent to the daemon
// ---------------------------------------------------------------------------
/// The datagram that asks the daemon to cycle the card to `profile`.
pub fn cycle_request(profile: &str) -> (b: Vec<u8>)
    ensures
        b@ == encode_utf8("cycle "@ + profile@),
{
    let mut s = "cycle ".to_owned();
    append_str(&mut s, profile);
    vstd::slice::slice_to_vec(s.as_str().as_bytes())
}

/// The datagram that asks the daemon to re-read its configuration.
pub fn reload_request() -> (b: Vec<u8>)
    ensures
        b@ == encode_utf8("reload"@),
{
    vstd::slice::slice_to_vec("reload".as_bytes())
}

/// The daemon reads a request back as what it asks for: a cycle request
/// whose profile is not empty and does not end in whitespace decodes as a
/// cycle to that very profile, and the reload request as a reload.
pub proof fn law_requests_read_back(profile: Seq<char>)
    requires
        profile.len() > 0,
        !is_space(profile.last()),
    ensures
        decode_spec(encode_utf8("cycle "@ + profile)) == Ok::<_, DecodeErrorView>(
            CommandView::Cycle(Some(profile)),
        ),
        decode_spec(encode_utf8("reload"@)) == Ok::<_, DecodeErrorView>(CommandView::Reload),
{
    broadcast use {vstd::utf8::encode_utf8_valid_utf8, vstd::utf8::encode_utf8_decode_utf8};

    reveal_strlit("cycle ");
    reveal_strlit("cycle");
    reveal_strlit("toggle");
    reveal_strlit("toggle ");
    reveal_strlit("reload");
    let t = "cycle "@ + profile;
    assert(trim_start(t) == t) by {
        assert(t[0] == 'c');
    }
    assert(trim_end(t) == t) by {
        assert(t.last() == profile.last());
    }
    assert(t != "reload"@) by {
        assert(t[0] != "reload"@[0]);
    }
    assert(t != "toggle"@) by {
        assert(t[0] != "toggle"@[0]);
    }
    assert(t.len() != "cycle"@.len());
    assert(t.subrange(0, 6) =~= "cycle "@);
    assert(t.skip(6) =~= profile);
    let r = "reload"@;
    assert(trim_start(r) == r) by {
        assert(r[0] == 'r');
    }
    assert(trim_end(r) == r) by {
        assert(r.last() == 'd');
    }
}

/// The runtime directory of user `uid` when the environment names none;
/// user 0's when the id is unknown.
pub fn user_runtime_dir(uid: Option<u32>) -> (s: String)
    ensures
        s@ == "/run/user/"@ + decimal(
            match uid {
                Some(u) => u as nat,
                None => 0nat,
            },
        ),
{
    let mut s = "/run/user/".to_owned();
    let u: u32 = match uid {
        Some(u) => u,
        None => 0,
    };
    push_decimal(&mut s, u as u64);
    s
}

/// Milliseconds the socket is left alone between two polls.
pub const POLL_INTERVAL_MS: u64 = 250;

/// The largest datagram the daemon reads.
pub const MAX_DATAGRAM: usize = 256;

} // verus!

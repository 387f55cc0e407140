//! The configuration file: one `--flag=value` per line, blank lines and
//! lines starting with `#` ignored.  Reading it, looking a default up in it,
//! rewriting it with a new default, and merging it with the command line.
use vstd::prelude::*;
use crate::cli::Overrides;
use crate::pactl::opt_view;
use crate::text::{
    append_str, chars_eq, chars_of, is_space, line_spans, lines, push_decimal,
    skip_space, skip_space_back, starts_with, starts_with_exec, str_eq, string_of, trim,
    trim_start, decimal,
};

verus! {

/// A lower-case ASCII letter.
pub open spec fn is_lower(c: char) -> bool {
    97 <= (c as u32) && (c as u32) <= 122
}

/// A character that may follow the first letter of a flag name.
pub open spec fn is_flag_char(c: char) -> bool {
    is_lower(c) || (48 <= (c as u32) && (c as u32) <= 57) || c == '-'
}

/// Length of the longest prefix of `s` made of flag characters.
pub open spec fn flag_run(s: Seq<char>) -> int
    decreases s.len(),
{
    if s.len() > 0 && is_flag_char(s[0]) {
        1 + flag_run(s.drop_first())
    } else {
        0
    }
}

/// A trimmed line as an entry: `^(--[a-z][a-z0-9-]*)=(.+)$`.
pub open spec fn entry_match(t: Seq<char>) -> Option<(Seq<char>, Seq<char>)> {
    if t.len() >= 3 && t[0] == '-' && t[1] == '-' && is_lower(t[2]) {
        let f = 3 + flag_run(t.skip(3));
        if f + 1 < t.len() && t[f] == '=' {
            Some((t.take(f), t.skip(f + 1)))
        } else {
            None
        }
    } else {
        None
    }
}

/// What one line of the file contributes.
pub enum LineMeaning {
    /// A blank line or a comment.
    Skip,
    /// A flag and its value.
    Entry(Seq<char>, Seq<char>),
    /// A line that is neither.
    Bad,
}

/// The meaning of one line: decided on the line with surrounding
/// whitespace removed.
pub open spec fn line_meaning(l: Seq<char>) -> LineMeaning {
    let t = trim(l);
    if t.len() == 0 || t[0] == '#' {
        LineMeaning::Skip
    } else {
        match entry_match(t) {
            Some((f, v)) => LineMeaning::Entry(f, v),
            None => LineMeaning::Bad,
        }
    }
}

/// The entries of the lines `ls`, or the index of the first bad line.
pub open spec fn conf_entries(ls: Seq<Seq<char>>) -> Result<Seq<(Seq<char>, Seq<char>)>, int>
    decreases ls.len(),
{
    if ls.len() == 0 {
        Ok(seq![])
    } else {
        match conf_entries(ls.drop_last()) {
            Err(i) => Err(i),
            Ok(es) => match line_meaning(ls.last()) {
                LineMeaning::Skip => Ok(es),
                LineMeaning::Entry(f, v) => Ok(es.push((f, v))),
                LineMeaning::Bad => Err(ls.len() - 1),
            },
        }
    }
}

/// Why the configuration could not be used.
#[derive(Debug, Clone, PartialEq, Eq)]
pub enum ConfigError {
    /// A line that is neither blank, a comment, nor `--flag=value`;
    /// `line_number` counts from 1 and `line` is the trimmed line.
    MalformedLine { line_number: usize, path: String, line: String },
    /// A flag that the file may not set.
    UnsupportedFlag { flag: String, path: String },
    /// No file where the configuration is looked for.
    MissingFile { path: String, key: String },
    /// The file sets no value for the flag.
    MissingEntry { flag: String, path: String, key: String },
}

/// The value of a configuration error.
pub enum ConfigErrorView {
    MalformedLine { line_number: nat, path: Seq<char>, line: Seq<char> },
    UnsupportedFlag { flag: Seq<char>, path: Seq<char> },
    MissingFile { path: Seq<char>, key: Seq<char> },
    MissingEntry { flag: Seq<char>, path: Seq<char>, key: Seq<char> },
}

impl View for ConfigError {
    type V = ConfigErrorView;

    open spec fn view(&self) -> ConfigErrorView {
        match self {
            ConfigError::MalformedLine { line_number, path, line } => ConfigErrorView::MalformedLine {
                line_number: *line_number as nat,
                path: path@,
                line: line@,
            },
            ConfigError::UnsupportedFlag { flag, path } => ConfigErrorView::UnsupportedFlag {
                flag: flag@,
                path: path@,
            },
            ConfigError::MissingFile { path, key } => ConfigErrorView::MissingFile {
                path: path@,
                key: key@,
            },
            ConfigError::MissingEntry { flag, path, key } => ConfigErrorView::MissingEntry {
                flag: flag@,
                path: path@,
                key: key@,
            },
        }
    }
}

/// The advice that follows a missing default.
pub open spec fn hint_text(key: Seq<char>) -> Seq<char> {
    if key == "card"@ {
        "Without a default, aproman auto-detects the first HDMI card."@ + "\n"@
            + "Use 'aproman list-cards' or 'aproman list-profiles' to see available options."@
    } else {
        "Use 'aproman list-cards' or 'aproman list-profiles' to see available options."@
    }
}

/// The text of each configuration error.
pub open spec fn config_error_text(e: ConfigErrorView) -> Seq<char> {
    match e {
        ConfigErrorView::MalformedLine { line_number, path, line } => "malformed line "@
            + decimal(line_number) + " in "@ + path + ": "@ + line,
        ConfigErrorView::UnsupportedFlag { flag, path } => "unsupported flag '"@ + flag + "' in "@
            + path,
        ConfigErrorView::MissingFile { path, key } => "No config file found at "@ + path + "\n"@
            + hint_text(key),
        ConfigErrorView::MissingEntry { flag, path, key } => "No "@ + flag + " entry found in "@
            + path + "\n"@ + hint_text(key),
    }
}

/// The advice that follows a missing default for `key`.
fn default_hint(key: &str) -> (s: String)
    ensures
        s@ == hint_text(key@),
{
    let mut s = String::new();
    if str_eq(key, "card") {
        append_str(&mut s, "Without a default, aproman auto-detects the first HDMI card.");
        append_str(&mut s, "\n");
    }
    append_str(&mut s, "Use 'aproman list-cards' or 'aproman list-profiles' to see available options.");
    s
}

impl ConfigError {
    /// The error's message.
    pub fn message(&self) -> (s: String)
        ensures
            s@ == config_error_text(self@),
    {
        match self {
            ConfigError::MalformedLine { line_number, path, line } => {
                let mut s = "malformed line ".to_owned();
                push_decimal(&mut s, *line_number as u64);
                append_str(&mut s, " in ");
                append_str(&mut s, path.as_str());
                append_str(&mut s, ": ");
                append_str(&mut s, line.as_str());
                s
            },
            ConfigError::UnsupportedFlag { flag, path } => {
                let mut s = "unsupported flag '".to_owned();
                append_str(&mut s, flag.as_str());
                append_str(&mut s, "' in ");
                append_str(&mut s, path.as_str());
                s
            },
            ConfigError::MissingFile { path, key } => {
                let mut s = "No config file found at ".to_owned();
                append_str(&mut s, path.as_str());
                append_str(&mut s, "\n");
                let h = default_hint(key.as_str());
                append_str(&mut s, h.as_str());
                s
            },
            ConfigError::MissingEntry { flag, path, key } => {
                let mut s = "No ".to_owned();
                append_str(&mut s, flag.as_str());
                append_str(&mut s, " entry found in ");
                append_str(&mut s, path.as_str());
                append_str(&mut s, "\n");
                let h = default_hint(key.as_str());
                append_str(&mut s, h.as_str());
                s
            },
        }
    }
}

/// The values of a list of entries.
pub open spec fn entries_view(es: Seq<(String, String)>) -> Seq<(Seq<char>, Seq<char>)> {
    es.map_values(|e: (String, String)| (e.0@, e.1@))
}

/// What `parse_conf` answers for `text` read from `path`.
pub open spec fn parse_conf_result(text: Seq<char>, path: Seq<char>) -> Result<
    Seq<(Seq<char>, Seq<char>)>,
    ConfigErrorView,
> {
    match conf_entries(lines(text)) {
        Ok(es) => Ok(es),
        Err(i) => Err(
            ConfigErrorView::MalformedLine {
                line_number: (i + 1) as nat,
                path,
                line: trim(lines(text)[i]),
            },
        ),
    }
}

/// Whether `c` may follow the first letter of a flag name.
fn is_flag_char_exec(c: char) -> (r: bool)
    ensures
        r == is_flag_char(c),
{
    let u = c as u32;
    (97 <= u && u <= 122) || (48 <= u && u <= 57) || c == '-'
}

/// The entry on the trimmed line `cs[a..b]`: spans of flag and value.
fn match_entry(cs: &Vec<char>, a: usize, b: usize) -> (r: Option<(usize, usize)>)
    requires
        a <= b <= cs.len(),
    ensures
        match r {
            Some((f, v)) => a < f && f < v && v < b && v == f + 1 && entry_match(
                cs@.subrange(a as int, b as int),
            ) == Some((cs@.subrange(a as int, f as int), cs@.subrange(v as int, b as int))),
            None => entry_match(cs@.subrange(a as int, b as int)) is None,
        },
{
    let ghost t = cs@.subrange(a as int, b as int);
    if b - a < 3 || cs[a] != '-' || cs[a + 1] != '-' {
        proof {
            if b - a >= 3 {
                assert(t[0] == cs@[a as int] && t[1] == cs@[a + 1]);
            }
        }
        return None;
    }
    assert(t[0] == cs@[a as int] && t[1] == cs@[a + 1] && t[2] == cs@[a + 2]);
    let u = cs[a + 2] as u32;
    if !(97 <= u && u <= 122) {
        return None;
    }
    let mut f = a + 3;
    assert(t.skip(3) =~= cs@.subrange(a + 3, b as int));
    while f < b && is_flag_char_exec(cs[f])
        invariant
            a + 3 <= f <= b <= cs.len(),
            t == cs@.subrange(a as int, b as int),
            flag_run(t.skip(3)) == (f - a - 3) + flag_run(cs@.subrange(f as int, b as int)),
        decreases b - f,
    {
        assert(cs@.subrange(f as int, b as int).drop_first() =~= cs@.subrange(f + 1, b as int));
        f += 1;
    }
    proof {
        assert(t.skip(3) =~= cs@.subrange(a + 3, b as int));
        if f < b {
            assert(cs@.subrange(f as int, b as int)[0] == cs@[f as int]);
        }
        assert(flag_run(t.skip(3)) == f - a - 3);
    }
    if f < b && b - f > 1 && cs[f] == '=' {
        assert(t[f - a] == cs@[f as int]);
        assert(t.take(f - a) =~= cs@.subrange(a as int, f as int));
        assert(t.skip(f - a + 1) =~= cs@.subrange(f + 1, b as int));
        Some((f, f + 1))
    } else {
        proof {
            if f < b && b - f > 1 {
                assert(t[f - a] == cs@[f as int]);
            }
        }
        None
    }
}

/// A bad line stays the first bad line of every longer list of lines.
pub proof fn lemma_conf_error_persists(ls: Seq<Seq<char>>, n: int, j: int)
    requires
        0 <= n <= ls.len(),
        conf_entries(ls.take(n)) == Err::<Seq<(Seq<char>, Seq<char>)>, int>(j),
    ensures
        conf_entries(ls) == Err::<Seq<(Seq<char>, Seq<char>)>, int>(j),
    decreases ls.len() - n,
{
    if n == ls.len() {
        assert(ls.take(n) =~= ls);
    } else {
        assert(ls.take(n + 1).drop_last() =~= ls.take(n));
        lemma_conf_error_persists(ls, n + 1, j);
    }
}

/// Reads the entries of a configuration file.
///
/// `path` only names the file in the error: a line that is neither blank,
/// a comment (`#` after leading whitespace), nor `--flag=value` is refused,
/// the first such line being reported.
pub fn parse_conf(text: &str, path: &str) -> (r: Result<Vec<(String, String)>, ConfigError>)
    ensures
        match r {
            Ok(es) => parse_conf_result(text@, path@) == Ok::<_, ConfigErrorView>(entries_view(es@)),
            Err(e) => parse_conf_result(text@, path@) == Err::<Seq<(Seq<char>, Seq<char>)>, _>(e@),
        },
{
    let cs = chars_of(text);
    let spans = line_spans(&cs);
    let ghost ls = lines(cs@);
    let mut entries: Vec<(String, String)> = Vec::new();
    let mut i: usize = 0;
    assert(ls.take(0) =~= seq![]);
    assert(entries_view(entries@) =~= seq![]);
    while i < spans.len()
        invariant
            cs@ == text@,
            ls == lines(cs@),
            spans.len() == ls.len(),
            forall|k: int|
                0 <= k < spans.len() ==> {
                    &&& (#[trigger] spans@[k]).0 <= spans@[k].1 <= cs.len()
                    &&& cs@.subrange(spans@[k].0 as int, spans@[k].1 as int) == ls[k]
                },
            i <= spans.len(),
            conf_entries(ls.take(i as int)) == Ok::<_, int>(entries_view(entries@)),
        decreases spans.len() - i,
    {
        let (lo, hi) = spans[i];
        let ghost cur = ls.take(i + 1);
        assert(cur.drop_last() =~= ls.take(i as int));
        assert(cur.last() == cs@.subrange(lo as int, hi as int));
        let a = skip_space(&cs, lo, hi);
        let b = skip_space_back(&cs, a, hi);
        assert(cs@.subrange(a as int, b as int) == trim(cs@.subrange(lo as int, hi as int)));
        if a == b || cs[a] == '#' {
            proof {
                if a < b {
                    assert(cs@.subrange(a as int, b as int)[0] == cs@[a as int]);
                }
            }
        } else {
            assert(cs@.subrange(a as int, b as int)[0] == cs@[a as int]);
            match match_entry(&cs, a, b) {
                Some((f, v)) => {
                    let ghost before = entries@;
                    let e = (string_of(&cs, a, f), string_of(&cs, v, b));
                    entries.push(e);
                    assert(entries@ == before.push(e));
                    assert(entries_view(entries@) =~= entries_view(before).push((e.0@, e.1@)));
                },
                None => {
                    proof {
                        lemma_conf_error_persists(ls, i + 1, i as int);
                    }
                    return Err(
                        ConfigError::MalformedLine {
                            line_number: i + 1,
                            path: path.to_owned(),
                            line: string_of(&cs, a, b),
                        },
                    );
                },
            }
        }
        i += 1;
    }
    assert(ls.take(i as int) =~= ls);
    Ok(entries)
}

// ---------------------------------------------------------------------------
// Settings read from the file
// ---------------------------------------------------------------------------
/// The card and profile that the file sets.
#[derive(Debug, Clone, PartialEq, Eq, Default)]
pub struct FileConfig {
    pub card: Option<String>,
    pub profile: Option<String>,
}

/// The settings of a list of entries: the last `--card` and the last
/// `--profile`, or the first flag that is neither.
pub open spec fn file_settings(es: Seq<(Seq<char>, Seq<char>)>) -> Result<
    (Option<Seq<char>>, Option<Seq<char>>),
    Seq<char>,
>
    decreases es.len(),
{
    if es.len() == 0 {
        Ok((None, None))
    } else {
        match file_settings(es.drop_last()) {
            Err(f) => Err(f),
            Ok((card, profile)) => {
                let (f, v) = es.last();
                if f == "--card"@ {
                    Ok((Some(v), profile))
                } else if f == "--profile"@ {
                    Ok((card, Some(v)))
                } else {
                    Err(f)
                }
            },
        }
    }
}

/// What `FileConfig::load` answers for the file `text` at `path`.
pub open spec fn load_result(text: Seq<char>, path: Seq<char>) -> Result<
    (Option<Seq<char>>, Option<Seq<char>>),
    ConfigErrorView,
> {
    match parse_conf_result(text, path) {
        Err(e) => Err(e),
        Ok(es) => match file_settings(es) {
            Ok(s) => Ok(s),
            Err(flag) => Err(ConfigErrorView::UnsupportedFlag { flag, path }),
        },
    }
}

/// An unsupported flag stays the first one in every longer list of entries.
proof fn lemma_settings_error_persists(es: Seq<(Seq<char>, Seq<char>)>, n: int, f: Seq<char>)
    requires
        0 <= n <= es.len(),
        file_settings(es.take(n)) == Err::<(Option<Seq<char>>, Option<Seq<char>>), _>(f),
    ensures
        file_settings(es) == Err::<(Option<Seq<char>>, Option<Seq<char>>), _>(f),
    decreases es.len() - n,
{
    if n == es.len() {
        assert(es.take(n) =~= es);
    } else {
        assert(es.take(n + 1).drop_last() =~= es.take(n));
        lemma_settings_error_persists(es, n + 1, f);
    }
}

impl FileConfig {
    /// The settings of the configuration file `text` found at `path`.
    pub fn load(text: &str, path: &str) -> (r: Result<FileConfig, ConfigError>)
        ensures
            match r {
                Ok(c) => load_result(text@, path@) == Ok::<_, ConfigErrorView>(
                    (opt_view(c.card), opt_view(c.profile)),
                ),
                Err(e) => load_result(text@, path@) == Err::<
                    (Option<Seq<char>>, Option<Seq<char>>),
                    _,
                >(e@),
            },
    {
        let entries = match parse_conf(text, path) {
            Ok(es) => es,
            Err(e) => {
                return Err(e);
            },
        };
        let ghost es = entries_view(entries@);
        let mut result = FileConfig { card: None, profile: None };
        let mut i: usize = 0;
        assert(es.take(0) =~= seq![]);
        while i < entries.len()
            invariant
                es == entries_view(entries@),
                parse_conf_result(text@, path@) == Ok::<_, ConfigErrorView>(es),
                i <= entries.len(),
                file_settings(es.take(i as int)) == Ok::<_, Seq<char>>(
                    (opt_view(result.card), opt_view(result.profile)),
                ),
            decreases entries.len() - i,
        {
            assert(es.take(i + 1).drop_last() =~= es.take(i as int));
            assert(es.take(i + 1).last() == (entries@[i as int].0@, entries@[i as int].1@));
            let (flag, value) = (&entries[i].0, &entries[i].1);
            if str_eq(flag.as_str(), "--card") {
                result.card = Some(value.clone());
            } else if str_eq(flag.as_str(), "--profile") {
                result.profile = Some(value.clone());
            } else {
                let f = flag.clone();
                proof {
                    assert(file_settings(es.take(i + 1)) == Err::<(Option<Seq<char>>, Option<Seq<char>>), Seq<char>>(f@));
                    lemma_settings_error_persists(es, i + 1, f@);
                }
                return Err(ConfigError::UnsupportedFlag { flag: f, path: path.to_owned() });
            }
            i += 1;
        }
        assert(es.take(i as int) =~= es);
        Ok(result)
    }
}

// ---------------------------------------------------------------------------
// Looking a default up
// ---------------------------------------------------------------------------
/// The flag that sets `key`.
pub open spec fn flag_of(key: Seq<char>) -> Seq<char> {
    "--"@ + key
}

/// The value of the first entry that sets `flag`.
pub open spec fn first_value(es: Seq<(Seq<char>, Seq<char>)>, flag: Seq<char>) -> Option<Seq<char>>
    decreases es.len(),
{
    if es.len() == 0 {
        None
    } else if es[0].0 == flag {
        Some(es[0].1)
    } else {
        first_value(es.drop_first(), flag)
    }
}

/// What `lookup_default` answers for `key` in the file `text` at `path`.
pub open spec fn lookup_result(text: Seq<char>, path: Seq<char>, key: Seq<char>) -> Result<
    Seq<char>,
    ConfigErrorView,
> {
    match parse_conf_result(text, path) {
        Err(e) => Err(e),
        Ok(es) => match first_value(es, flag_of(key)) {
            Some(v) => Ok(v),
            None => Err(ConfigErrorView::MissingEntry { flag: flag_of(key), path, key }),
        },
    }
}

/// The value that the configuration file `text` at `path` sets for `key`
/// (`card` or `profile`): the first `--key=` entry.
pub fn lookup_default(text: &str, path: &str, key: &str) -> (r: Result<String, ConfigError>)
    ensures
        match r {
            Ok(v) => lookup_result(text@, path@, key@) == Ok::<_, ConfigErrorView>(v@),
            Err(e) => lookup_result(text@, path@, key@) == Err::<Seq<char>, _>(e@),
        },
{
    let entries = match parse_conf(text, path) {
        Ok(es) => es,
        Err(e) => {
            return Err(e);
        },
    };
    let ghost es = entries_view(entries@);
    let mut flag = "--".to_owned();
    append_str(&mut flag, key);
    let mut i: usize = 0;
    assert(es.skip(0) =~= es);
    while i < entries.len()
        invariant
            es == entries_view(entries@),
            parse_conf_result(text@, path@) == Ok::<_, ConfigErrorView>(es),
            i <= entries.len(),
            flag@ == flag_of(key@),
            first_value(es, flag_of(key@)) == first_value(es.skip(i as int), flag_of(key@)),
        decreases entries.len() - i,
    {
        assert(es.skip(i as int)[0] == (entries@[i as int].0@, entries@[i as int].1@));
        if str_eq(entries[i].0.as_str(), flag.as_str()) {
            let v = entries[i].1.clone();
            assert(first_value(es.skip(i as int), flag_of(key@)) == Some(v@));
            return Ok(v);
        }
        assert(es.skip(i as int).drop_first() =~= es.skip(i + 1));
        i += 1;
    }
    assert(es.skip(i as int) =~= seq![]);
    Err(ConfigError::MissingEntry { flag, path: path.to_owned(), key: key.to_owned() })
}

// ---------------------------------------------------------------------------
// Writing a default
// ---------------------------------------------------------------------------
/// The line that sets `key` to `value`.
pub open spec fn setting_line(key: Seq<char>, value: Seq<char>) -> Seq<char> {
    flag_of(key) + "="@ + value
}

/// Whether a line of the file sets `key`: after its leading whitespace it
/// begins with `--key=`.
pub open spec fn sets_key(l: Seq<char>, key: Seq<char>) -> bool {
    starts_with(trim_start(l), flag_of(key) + "="@)
}

/// The lines with every line that sets `key` replaced by one that sets it
/// to `value`.
pub open spec fn replace_setting(ls: Seq<Seq<char>>, key: Seq<char>, value: Seq<char>) -> Seq<
    Seq<char>,
> {
    ls.map_values(|l: Seq<char>| if sets_key(l, key) { setting_line(key, value) } else { l })
}

/// Some line sets `key`.
pub open spec fn any_sets_key(ls: Seq<Seq<char>>, key: Seq<char>) -> bool {
    exists|i: int| 0 <= i < ls.len() && sets_key(#[trigger] ls[i], key)
}

/// The lines after setting `key` to `value`: replaced where set, else
/// appended.
pub open spec fn set_lines(ls: Seq<Seq<char>>, key: Seq<char>, value: Seq<char>) -> Seq<Seq<char>> {
    if any_sets_key(ls, key) {
        replace_setting(ls, key, value)
    } else {
        replace_setting(ls, key, value).push(setting_line(key, value))
    }
}

/// The lines joined, each one followed by a line feed.
pub open spec fn terminated(ls: Seq<Seq<char>>) -> Seq<char>
    decreases ls.len(),
{
    if ls.len() == 0 {
        seq![]
    } else {
        terminated(ls.drop_last()) + ls.last() + seq!['\n']
    }
}

/// The file `text` after setting `key` to `value`.
pub open spec fn with_default_text(text: Seq<char>, key: Seq<char>, value: Seq<char>) -> Seq<char> {
    terminated(set_lines(lines(text), key, value))
}

/// The configuration file `text` with `key` set to `value`: every line that
/// sets `key` is replaced by `--key=value`, or that line is appended when
/// none does; lines are written back each followed by a line feed.
pub fn with_default(text: &str, key: &str, value: &str) -> (r: String)
    ensures
        r@ == with_default_text(text@, key@, value@),
{
    let cs = chars_of(text);
    let spans = line_spans(&cs);
    let ghost ls = lines(cs@);
    let mut prefix = "--".to_owned();
    append_str(&mut prefix, key);
    append_str(&mut prefix, "=");
    let pre = chars_of(prefix.as_str());
    let mut line = prefix.clone();
    append_str(&mut line, value);
    let mut out = String::new();
    let mut replaced = false;
    let mut i: usize = 0;
    assert(ls.take(0) =~= seq![]);
    assert(replace_setting(ls.take(0), key@, value@) =~= seq![]);
    while i < spans.len()
        invariant
            cs@ == text@,
            ls == lines(cs@),
            spans.len() == ls.len(),
            forall|k: int|
                0 <= k < spans.len() ==> {
                    &&& (#[trigger] spans@[k]).0 <= spans@[k].1 <= cs.len()
                    &&& cs@.subrange(spans@[k].0 as int, spans@[k].1 as int) == ls[k]
                },
            i <= spans.len(),
            pre@ == flag_of(key@) + "="@,
            line@ == setting_line(key@, value@),
            out@ == terminated(replace_setting(ls.take(i as int), key@, value@)),
            replaced == any_sets_key(ls.take(i as int), key@),
        decreases spans.len() - i,
    {
        let (lo, hi) = spans[i];
        let ghost prev = ls.take(i as int);
        let ghost cur = ls.take(i + 1);
        assert(cur.drop_last() =~= prev);
        assert(cur.last() == cs@.subrange(lo as int, hi as int));
        let a = skip_space(&cs, lo, hi);
        let hit = starts_with_exec(&cs, a, hi, &pre);
        assert(replace_setting(cur, key@, value@) =~= replace_setting(prev, key@, value@).push(
            if hit {
                line@
            } else {
                cur.last()
            },
        ));
        if hit {
            append_str(&mut out, line.as_str());
            replaced = true;
            assert(sets_key(cur[i as int], key@));
        } else {
            let l = string_of(&cs, lo, hi);
            append_str(&mut out, l.as_str());
            proof {
                if any_sets_key(cur, key@) {
                    let w = choose|w: int| 0 <= w < cur.len() && sets_key(#[trigger] cur[w], key@);
                    assert(prev[w] == cur[w]);
                }
            }
        }
        proof {
            if replaced && !hit {
                let w = choose|w: int| 0 <= w < prev.len() && sets_key(#[trigger] prev[w], key@);
                assert(cur[w] == prev[w]);
            }
        }
        let ghost before_nl = out@;
        append_str(&mut out, "\n");
        proof {
            reveal_strlit("\n");
            let rs = replace_setting(cur, key@, value@);
            assert(rs.drop_last() =~= replace_setting(prev, key@, value@));
            assert(out@ =~= before_nl + seq!['\n']);
        }
        i += 1;
    }
    assert(ls.take(i as int) =~= ls);
    if !replaced {
        let ghost before = replace_setting(ls, key@, value@);
        append_str(&mut out, line.as_str());
        append_str(&mut out, "\n");
        proof {
            reveal_strlit("\n");
            assert(before.push(setting_line(key@, value@)).drop_last() =~= before);
        }
    }
    out
}

// ---------------------------------------------------------------------------
// Settings in force
// ---------------------------------------------------------------------------
/// The settings the daemon runs with.
#[derive(Debug, Clone, PartialEq, Eq)]
pub struct Config {
    pub card: Option<String>,
    pub cli_card: bool,
    pub cli_profile: bool,
    pub profile: Option<String>,
}

/// A copy of an optional string.
fn opt_copy(o: &Option<String>) -> (r: Option<String>)
    ensures
        opt_view(r) == opt_view(*o),
{
    match o {
        Some(s) => Some(s.clone()),
        None => None,
    }
}

/// The first of two optional strings that is present (`Option::or`).
pub open spec fn or_else(a: Option<Seq<char>>, b: Option<Seq<char>>) -> Option<Seq<char>> {
    match a {
        Some(x) => Some(x),
        None => b,
    }
}

/// A setting after a reload: kept when the command line set it, taken from
/// the fresh settings otherwise.
pub open spec fn reloaded(from_cli: bool, current: Option<Seq<char>>, fresh: Option<Seq<char>>) -> Option<
    Seq<char>,
> {
    if from_cli {
        current
    } else {
        fresh
    }
}

/// Reloading settings built from a command line and one file with settings
/// built from the same command line and a new file gives what building
/// from the new file gives: the command line keeps its choice, the file
/// supplies the rest.
pub proof fn law_reload_is_rebuild(
    cli: Option<Seq<char>>,
    before: Option<Seq<char>>,
    after: Option<Seq<char>>,
)
    ensures
        reloaded(cli is Some, or_else(cli, before), or_else(cli, after)) == or_else(cli, after),
{
}

/// A setting given on the command line wins over the file; the file's
/// setting counts only where the command line gives none.
pub proof fn law_command_line_wins(cli: Seq<char>, file: Option<Seq<char>>)
    ensures
        or_else(Some(cli), file) == Some(cli),
        or_else(None, file) == file,
{
}

impl Config {
    /// The settings from the command line, falling back on the file.
    pub fn build(overrides: &Overrides, file: &FileConfig) -> (c: Config)
        ensures
            opt_view(c.card) == or_else(opt_view(overrides.card), opt_view(file.card)),
            opt_view(c.profile) == or_else(opt_view(overrides.profile), opt_view(file.profile)),
            c.cli_card == overrides.card is Some,
            c.cli_profile == overrides.profile is Some,
    {
        let card = match &overrides.card {
            Some(x) => Some(x.clone()),
            None => opt_copy(&file.card),
        };
        let profile = match &overrides.profile {
            Some(x) => Some(x.clone()),
            None => opt_copy(&file.profile),
        };
        Config {
            card,
            cli_card: overrides.card.is_some(),
            cli_profile: overrides.profile.is_some(),
            profile,
        }
    }

    /// Takes up freshly read settings, except where the command line
    /// decided.
    pub fn reload(&mut self, fresh: &Config)
        ensures
            final(self).cli_card == old(self).cli_card,
            final(self).cli_profile == old(self).cli_profile,
            opt_view(final(self).card) == reloaded(
                old(self).cli_card,
                opt_view(old(self).card),
                opt_view(fresh.card),
            ),
            opt_view(final(self).profile) == reloaded(
                old(self).cli_profile,
                opt_view(old(self).profile),
                opt_view(fresh.profile),
            ),
    {
        if !self.cli_card {
            self.card = opt_copy(&fresh.card);
        }
        if !self.cli_profile {
            self.profile = opt_copy(&fresh.profile);
        }
    }
}

} // verus!

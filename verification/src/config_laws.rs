//! What writing a default does to the configuration file, proved from the
//! specifications of `with_default`, `parse_conf` and `lookup_default`.
use vstd::prelude::*;
use crate::config::{
    any_sets_key, conf_entries, entry_match, first_value, flag_of, flag_run, is_flag_char,
    is_lower, line_meaning, lookup_result, parse_conf_result, replace_setting, set_lines,
    setting_line, sets_key, terminated, with_default_text, LineMeaning, ConfigErrorView,
    file_settings, load_result,
};
use crate::text::{
    is_space, line_end, lemma_line_end, lines, newline_free, starts_with, strip_cr, trim,
    trim_end, trim_start,
};

verus! {

/// The entries of a successful reading.
pub open spec fn entries_of<E>(r: Result<Seq<(Seq<char>, Seq<char>)>, E>) -> Seq<(Seq<char>, Seq<char>)> {
    match r {
        Ok(es) => es,
        Err(_) => seq![],
    }
}

/// A name that a flag can carry: a lower-case letter, then lower-case
/// letters, digits and dashes.
pub open spec fn valid_key(key: Seq<char>) -> bool {
    &&& key.len() > 0
    &&& is_lower(key[0])
    &&& forall|i: int| 0 <= i < key.len() ==> is_flag_char(#[trigger] key[i])
}

/// A value that a line can carry unchanged: not empty, on one line, and
/// not ending in whitespace (which trimming the line would remove).
pub open spec fn writable_value(value: Seq<char>) -> bool {
    &&& value.len() > 0
    &&& newline_free(value)
    &&& !is_space(value.last())
}

/// An entry after setting `flag` to `value`.
pub open spec fn set_entry(e: (Seq<char>, Seq<char>), flag: Seq<char>, value: Seq<char>) -> (Seq<char>, Seq<char>) {
    if e.0 == flag {
        (flag, value)
    } else {
        e
    }
}

/// The entries with each entry for `flag` now carrying `value`.
pub open spec fn replace_entries(es: Seq<(Seq<char>, Seq<char>)>, flag: Seq<char>, value: Seq<char>) -> Seq<(Seq<char>, Seq<char>)> {
    es.map_values(|e: (Seq<char>, Seq<char>)| set_entry(e, flag, value))
}

/// The entries after setting `flag` to `value`: each entry for `flag` now
/// carries `value`; when there was none, one is appended.
pub open spec fn set_entries(es: Seq<(Seq<char>, Seq<char>)>, flag: Seq<char>, value: Seq<char>) -> Seq<(Seq<char>, Seq<char>)> {
    let replaced = replace_entries(es, flag, value);
    if exists|i: int| 0 <= i < es.len() && (#[trigger] es[i]).0 == flag {
        replaced
    } else {
        replaced.push((flag, value))
    }
}

proof fn lemma_line_end_props(s: Seq<char>)
    ensures
        0 <= line_end(s) <= s.len(),
        forall|i: int| 0 <= i < line_end(s) ==> s[i] != '\n',
        line_end(s) < s.len() ==> s[line_end(s)] == '\n',
    decreases s.len(),
{
    if s.len() > 0 && s[0] != '\n' {
        lemma_line_end_props(s.drop_first());
        assert forall|i: int| 0 <= i < line_end(s) implies s[i] != '\n' by {
            if i > 0 {
                assert(s[i] == s.drop_first()[i - 1]);
            }
        }
    }
}

/// Every line that `lines` yields is free of line feeds.
pub proof fn lemma_lines_newline_free(s: Seq<char>)
    ensures
        forall|i: int| 0 <= i < lines(s).len() ==> newline_free(#[trigger] lines(s)[i]),
    decreases s.len(),
{
    if s.len() > 0 {
        lemma_line_end_props(s);
        let k = line_end(s);
        if k < s.len() {
            lemma_lines_newline_free(s.skip(k + 1));
            let head = strip_cr(s.take(k));
            assert(newline_free(head));
            assert forall|i: int| 0 <= i < lines(s).len() implies newline_free(
                #[trigger] lines(s)[i],
            ) by {
                if i > 0 {
                    assert(lines(s)[i] == lines(s.skip(k + 1))[i - 1]);
                }
            }
        }
    }
}

proof fn lemma_terminated_front(ls: Seq<Seq<char>>)
    requires
        ls.len() > 0,
    ensures
        terminated(ls) == ls[0] + seq!['\n'] + terminated(ls.drop_first()),
    decreases ls.len(),
{
    if ls.len() == 1 {
        let e: Seq<Seq<char>> = seq![];
        assert(ls.drop_last() =~= e);
        assert(ls.drop_first() =~= e);
        assert(terminated(e) == Seq::<char>::empty());
        assert(terminated(ls) == terminated(e) + ls.last() + seq!['\n']);
        assert(terminated(ls) =~= ls[0] + seq!['\n'] + terminated(e));
    } else {
        lemma_terminated_front(ls.drop_last());
        assert(ls.drop_last().drop_first() =~= ls.drop_first().drop_last());
        assert(ls.drop_first().last() == ls.last());
        assert(terminated(ls) =~= ls[0] + seq!['\n'] + terminated(ls.drop_first()));
    }
}

/// Reading lines back from text written line by line gives the lines,
/// up to a carriage return at the end of a line.
pub proof fn lemma_lines_of_terminated(ls: Seq<Seq<char>>)
    requires
        forall|i: int| 0 <= i < ls.len() ==> newline_free(#[trigger] ls[i]),
    ensures
        lines(terminated(ls)) == ls.map_values(|l: Seq<char>| strip_cr(l)),
    decreases ls.len(),
{
    if ls.len() == 0 {
        assert(ls.map_values(|l: Seq<char>| strip_cr(l)) =~= seq![]);
    } else {
        lemma_terminated_front(ls);
        let x = ls[0];
        let rest = terminated(ls.drop_first());
        let s = x + seq!['\n'] + rest;
        assert(newline_free(x));
        assert forall|i: int| 0 <= i < x.len() implies s[i] != '\n' by {
            assert(s[i] == x[i]);
        }
        assert(s[x.len() as int] == '\n');
        lemma_line_end(s, x.len() as int);
        assert(s.take(x.len() as int) =~= x);
        assert(s.skip(x.len() + 1 as int) =~= rest);
        assert(lines(s) == seq![strip_cr(x)] + lines(rest));
        assert(terminated(ls) == s);
        assert forall|i: int| 0 <= i < ls.drop_first().len() implies newline_free(
            #[trigger] ls.drop_first()[i],
        ) by {
            assert(ls.drop_first()[i] == ls[i + 1]);
        }
        lemma_lines_of_terminated(ls.drop_first());
        assert(ls.map_values(|l: Seq<char>| strip_cr(l)) =~= seq![strip_cr(x)]
            + ls.drop_first().map_values(|l: Seq<char>| strip_cr(l)));
    }
}

proof fn lemma_trim_start_push(m: Seq<char>, c: char)
    requires
        is_space(c),
    ensures
        trim_start(m).len() > 0 ==> trim_start(m.push(c)) == trim_start(m).push(c),
        trim_start(m).len() == 0 ==> trim_start(m.push(c)).len() == 0,
    decreases m.len(),
{
    assert(m.push(c)[0] == if m.len() == 0 { c } else { m[0] });
    if m.len() == 0 {
        assert(m.push(c).drop_first() =~= seq![]);
        assert(trim_start(m.push(c).drop_first()).len() == 0);
    } else if is_space(m[0]) {
        assert(m.push(c).drop_first() =~= m.drop_first().push(c));
        lemma_trim_start_push(m.drop_first(), c);
    }
}

/// Removing the carriage return of a line does not change the trimmed line.
pub proof fn lemma_trim_strip_cr(l: Seq<char>)
    ensures
        trim(strip_cr(l)) == trim(l),
{
    if l.len() > 0 && l.last() == '\r' {
        let m = l.drop_last();
        assert(m.push('\r') =~= l);
        lemma_trim_start_push(m, '\r');
        if trim_start(m).len() > 0 {
            assert(trim_start(m).push('\r').drop_last() =~= trim_start(m));
        }
    }
}

proof fn lemma_conf_entries_congruent(a: Seq<Seq<char>>, b: Seq<Seq<char>>)
    requires
        a.len() == b.len(),
        forall|i: int| 0 <= i < a.len() ==> line_meaning(#[trigger] a[i]) == line_meaning(b[i]),
    ensures
        conf_entries(a) == conf_entries(b),
    decreases a.len(),
{
    if a.len() > 0 {
        assert forall|i: int| 0 <= i < a.drop_last().len() implies line_meaning(
            #[trigger] a.drop_last()[i],
        ) == line_meaning(b.drop_last()[i]) by {
            assert(a.drop_last()[i] == a[i]);
            assert(b.drop_last()[i] == b[i]);
        }
        lemma_conf_entries_congruent(a.drop_last(), b.drop_last());
        assert(line_meaning(a.last()) == line_meaning(b.last()));
    }
}

proof fn lemma_flag_run_props(s: Seq<char>)
    ensures
        0 <= flag_run(s) <= s.len(),
        forall|i: int| 0 <= i < flag_run(s) ==> is_flag_char(#[trigger] s[i]),
        flag_run(s) < s.len() ==> !is_flag_char(s[flag_run(s)]),
    decreases s.len(),
{
    if s.len() > 0 && is_flag_char(s[0]) {
        lemma_flag_run_props(s.drop_first());
        assert forall|i: int| 0 <= i < flag_run(s) implies is_flag_char(#[trigger] s[i]) by {
            if i > 0 {
                assert(s[i] == s.drop_first()[i - 1]);
            }
        }
    }
}

proof fn lemma_flag_run_exact(s: Seq<char>, k: int)
    requires
        0 <= k < s.len(),
        forall|i: int| 0 <= i < k ==> is_flag_char(#[trigger] s[i]),
        !is_flag_char(s[k]),
    ensures
        flag_run(s) == k,
    decreases k,
{
    if k > 0 {
        assert forall|i: int| 0 <= i < k - 1 implies is_flag_char(#[trigger] s.drop_first()[i]) by {
            assert(s.drop_first()[i] == s[i + 1]);
        }
        lemma_flag_run_exact(s.drop_first(), k - 1);
    }
}

proof fn lemma_trim_end_prefix(s: Seq<char>)
    ensures
        trim_end(s).len() <= s.len(),
        s.take(trim_end(s).len() as int) == trim_end(s),
        s.len() > 0 && !is_space(s[0]) ==> trim_end(s).len() > 0,
        s.len() > 0 && !is_space(s.last()) ==> trim_end(s) == s,
    decreases s.len(),
{
    if s.len() > 0 && is_space(s.last()) {
        lemma_trim_end_prefix(s.drop_last());
        assert(s.take(trim_end(s).len() as int) =~= s.drop_last().take(trim_end(s).len() as int));
        if !is_space(s[0]) {
            assert(s.drop_last()[0] == s[0]);
        }
    } else {
        assert(s.take(s.len() as int) =~= s);
    }
}

proof fn lemma_literals()
    ensures
        "--"@ == seq!['-', '-'],
        "="@ == seq!['='],
{
    reveal_strlit("--");
    reveal_strlit("=");
}

/// The line that sets `key` to `value` means exactly that.
proof fn lemma_setting_line_meaning(key: Seq<char>, value: Seq<char>)
    requires
        valid_key(key),
        writable_value(value),
    ensures
        line_meaning(setting_line(key, value)) == LineMeaning::Entry(flag_of(key), value),
{
    lemma_literals();
    let t = setting_line(key, value);
    let n = key.len() as int;
    assert(t =~= seq!['-', '-'] + key + seq!['='] + value);
    assert(t[0] == '-');
    assert(t.last() == value.last());
    lemma_trim_end_prefix(t);
    assert(trim_start(t) == t);
    assert(trim(t) == t);
    assert forall|i: int| 0 <= i < n - 1 implies is_flag_char(#[trigger] t.skip(3)[i]) by {
        assert(t.skip(3)[i] == key[i + 1]);
    }
    assert(t.skip(3)[n - 1] == '=');
    lemma_flag_run_exact(t.skip(3), n - 1);
    assert(t.take(2 + n) =~= flag_of(key));
    assert(t.skip(3 + n) =~= value);
}

/// Facts on a line that sets `key` and a line whose entry has flag `--key`.
proof fn lemma_sets_key_iff_flag(l: Seq<char>, key: Seq<char>)
    requires
        valid_key(key),
        line_meaning(l) !is Bad,
    ensures
        sets_key(l, key) <==> (line_meaning(l) matches LineMeaning::Entry(f, v) && f == flag_of(key)),
{
    lemma_literals();
    let a = trim_start(l);
    let t = trim(l);
    let n = key.len() as int;
    let p = flag_of(key) + "="@;
    assert(p =~= seq!['-', '-'] + key + seq!['=']);
    lemma_trim_end_prefix(a);
    assert(t == trim_end(a));
    assert(t.len() <= a.len());
    assert forall|i: int| 0 <= i < t.len() implies #[trigger] t[i] == a[i] by {
        assert(a.take(t.len() as int)[i] == a[i]);
    }
    assert(!is_flag_char('='));
    if sets_key(l, key) {
        assert forall|i: int| 0 <= i < p.len() implies #[trigger] a[i] == p[i] by {
            assert(a.take(p.len() as int)[i] == a[i]);
        }
        assert(a.take(p.len() as int) == p);
        assert(a[0] == p[0]);
        assert(t.len() > 0);
        assert(t[0] == a[0]);
        assert(line_meaning(l) !is Skip);
        let r = flag_run(t.skip(3));
        lemma_flag_run_props(t.skip(3));
        let e = entry_match(t).unwrap();
        assert(3 + r + 1 < t.len());
        assert(t[3 + r] == '=');
        assert(t.skip(3)[r] == t[3 + r]);
        if r < n - 1 {
            assert(t[3 + r] == a[3 + r]);
            assert(a[3 + r] == p[3 + r]);
            assert(p[3 + r] == key[1 + r]);
        } else if r > n - 1 {
            assert(t.skip(3)[n - 1] == t[2 + n]);
            assert(t[2 + n] == a[2 + n]);
            assert(a[2 + n] == p[2 + n]);
        }
        assert(r == n - 1);
        assert(e.0 =~= t.take(2 + n));
        assert forall|i: int| 0 <= i < 2 + n implies t.take(2 + n)[i] == flag_of(key)[i] by {
            assert(t[i] == a[i]);
            assert(a[i] == p[i]);
        }
        assert(t.take(2 + n) =~= flag_of(key));
    } else {
        if let LineMeaning::Entry(f, v) = line_meaning(l) {
            if f == flag_of(key) {
                let r = flag_run(t.skip(3));
                lemma_flag_run_props(t.skip(3));
                assert(t.len() > 0 && t[0] != '#');
                assert(entry_match(t) == Some((f, v)));
                assert(3 + r + 1 < t.len());
                assert(f == t.take(3 + r));
                assert(f.len() == 2 + n);
                assert(t[2 + n] == '=');
                assert forall|i: int| 0 <= i < p.len() implies a.take(p.len() as int)[i] == p[i] by {
                    assert(a[i] == t[i]);
                    if i < 2 + n {
                        assert(t[i] == f[i]);
                    }
                }
                assert(a.take(p.len() as int) =~= p);
                assert(false);
            }
        }
    }
}

/// Replacing the setting lines replaces the entries for the flag.
proof fn lemma_replace_entries(ls: Seq<Seq<char>>, key: Seq<char>, value: Seq<char>)
    requires
        valid_key(key),
        writable_value(value),
        conf_entries(ls) is Ok,
    ensures
        conf_entries(replace_setting(ls, key, value)) == Ok::<_, int>(
            replace_entries(entries_of(conf_entries(ls)), flag_of(key), value),
        ),
        any_sets_key(ls, key) <==> exists|i: int|
            0 <= i < entries_of(conf_entries(ls)).len() && (#[trigger] entries_of(conf_entries(ls))[i]).0 == flag_of(key),
    decreases ls.len(),
{
    let flag = flag_of(key);
    if ls.len() == 0 {
        assert(replace_setting(ls, key, value) =~= seq![]);
        assert(entries_of(conf_entries(ls)) =~= seq![]);
        assert(replace_entries(entries_of(conf_entries(ls)), flag, value) =~= seq![]);
    } else {
        let prev = ls.drop_last();
        let l = ls.last();
        assert(conf_entries(prev) is Ok);
        lemma_replace_entries(prev, key, value);
        let es0 = entries_of(conf_entries(prev));
        let es = entries_of(conf_entries(ls));
        assert(line_meaning(l) !is Bad);
        lemma_sets_key_iff_flag(l, key);
        lemma_setting_line_meaning(key, value);
        let rs = replace_setting(ls, key, value);
        assert(rs.drop_last() =~= replace_setting(prev, key, value));
        assert(rs.last() == if sets_key(l, key) { setting_line(key, value) } else { l });
        match line_meaning(l) {
            LineMeaning::Skip => {
                assert(es == es0);
                assert(!sets_key(l, key));
            },
            LineMeaning::Entry(fl, v) => {
                assert(es == es0.push((fl, v)));
                assert(replace_entries(es, flag, value) =~= replace_entries(es0, flag, value).push(
                    set_entry((fl, v), flag, value),
                ));
            },
            LineMeaning::Bad => {},
        }
        if any_sets_key(ls, key) {
            let w = choose|w: int| 0 <= w < ls.len() && sets_key(#[trigger] ls[w], key);
            if w < ls.len() - 1 {
                assert(prev[w] == ls[w]);
                assert(any_sets_key(prev, key));
                let j = choose|j: int| 0 <= j < es0.len() && (#[trigger] es0[j]).0 == flag;
                assert(es[j] == es0[j]);
            } else {
                assert(es.last().0 == flag);
            }
        }
        if exists|i: int| 0 <= i < es.len() && (#[trigger] es[i]).0 == flag {
            let j = choose|j: int| 0 <= j < es.len() && (#[trigger] es[j]).0 == flag;
            if j < es0.len() {
                assert(es0[j] == es[j]);
                let w = choose|w: int| 0 <= w < prev.len() && sets_key(#[trigger] prev[w], key);
                assert(ls[w] == prev[w]);
            } else {
                assert(sets_key(ls[ls.len() - 1], key));
            }
        }
    }
}

proof fn lemma_first_value_set(es: Seq<(Seq<char>, Seq<char>)>, flag: Seq<char>, value: Seq<char>)
    ensures
        first_value(replace_entries(es, flag, value), flag) == if exists|i: int|
            0 <= i < es.len() && (#[trigger] es[i]).0 == flag {
            Some(value)
        } else {
            None::<Seq<char>>
        },
        first_value(replace_entries(es, flag, value).push((flag, value)), flag) == Some(value),
    decreases es.len(),
{
    let m = replace_entries(es, flag, value);
    if es.len() == 0 {
        assert(m.push((flag, value)).drop_first() =~= seq![]);
        assert(m.push((flag, value))[0] == (flag, value));
    } else {
        lemma_first_value_set(es.drop_first(), flag, value);
        assert(m.drop_first() =~= replace_entries(es.drop_first(), flag, value));
        assert(m.push((flag, value)).drop_first() =~= replace_entries(es.drop_first(), flag, value).push(
            (flag, value),
        ));
        assert(m[0] == set_entry(es[0], flag, value));
        assert(m.push((flag, value))[0] == m[0]);
        if es[0].0 != flag {
            if exists|i: int| 0 <= i < es.len() && (#[trigger] es[i]).0 == flag {
                let j = choose|j: int| 0 <= j < es.len() && (#[trigger] es[j]).0 == flag;
                assert(es.drop_first()[j - 1] == es[j]);
            }
            if exists|i: int| 0 <= i < es.drop_first().len() && (#[trigger] es.drop_first()[i]).0
                == flag {
                let j = choose|j: int|
                    0 <= j < es.drop_first().len() && (#[trigger] es.drop_first()[j]).0 == flag;
                assert(es[j + 1] == es.drop_first()[j]);
            }
        }
    }
}

/// Setting a default and reading the file back: the entries are those of
/// the file before, each entry for `--key` now carrying `value` (or one
/// such entry appended when there was none).
#[verifier::rlimit(40)]
pub proof fn law_written_entries(text: Seq<char>, path: Seq<char>, key: Seq<char>, value: Seq<char>)
    requires
        parse_conf_result(text, path) is Ok,
        valid_key(key),
        writable_value(value),
    ensures
        parse_conf_result(with_default_text(text, key, value), path) == Ok::<
            _,
            crate::config::ConfigErrorView,
        >(set_entries(entries_of(parse_conf_result(text, path)), flag_of(key), value)),
{
    let ls = lines(text);
    let out = set_lines(ls, key, value);
    let flag = flag_of(key);
    assert(conf_entries(ls) is Ok);
    let es = entries_of(conf_entries(ls));
    assert(entries_of(parse_conf_result(text, path)) == es);
    lemma_replace_entries(ls, key, value);
    lemma_setting_line_meaning(key, value);
    let rs = replace_setting(ls, key, value);
    lemma_out_newline_free(text, key, value);
    lemma_lines_of_terminated(out);
    let back = out.map_values(|l: Seq<char>| strip_cr(l));
    assert forall|i: int| 0 <= i < back.len() implies line_meaning(#[trigger] back[i])
        == line_meaning(out[i]) by {
        lemma_trim_strip_cr(out[i]);
    }
    lemma_conf_entries_congruent(back, out);
    assert(lines(with_default_text(text, key, value)) == back);
    if !any_sets_key(ls, key) {
        assert(out.drop_last() =~= rs);
        assert(conf_entries(out) == Ok::<_, int>(replace_entries(es, flag, value).push((flag, value))));
    } else {
        assert(conf_entries(out) == Ok::<_, int>(replace_entries(es, flag, value)));
    }
}

proof fn lemma_out_newline_free(text: Seq<char>, key: Seq<char>, value: Seq<char>)
    requires
        valid_key(key),
        writable_value(value),
    ensures
        forall|i: int|
            0 <= i < set_lines(lines(text), key, value).len() ==> newline_free(
                #[trigger] set_lines(lines(text), key, value)[i],
            ),
{
    let ls = lines(text);
    let out = set_lines(ls, key, value);
    let rs = replace_setting(ls, key, value);
    lemma_lines_newline_free(text);
    assert(newline_free(setting_line(key, value))) by {
        lemma_literals();
        assert forall|i: int| 0 <= i < setting_line(key, value).len() implies setting_line(
            key,
            value,
        )[i] != '\n' by {
            if i >= 3 + key.len() {
                assert(setting_line(key, value)[i] == value[i - 3 - key.len()]);
            } else if i >= 2 {
                if i < 2 + key.len() {
                    assert(setting_line(key, value)[i] == key[i - 2]);
                }
            }
        }
    }
    assert forall|i: int| 0 <= i < out.len() implies newline_free(#[trigger] out[i]) by {
        if i < ls.len() {
            assert(out[i] == rs[i]);
        }
    }
}

/// Setting a default and then looking it up gives the value set.
pub proof fn law_written_default_reads_back(
    text: Seq<char>,
    path: Seq<char>,
    key: Seq<char>,
    value: Seq<char>,
)
    requires
        parse_conf_result(text, path) is Ok,
        valid_key(key),
        writable_value(value),
    ensures
        lookup_result(with_default_text(text, key, value), path, key) == Ok::<
            _,
            crate::config::ConfigErrorView,
        >(value),
{
    law_written_entries(text, path, key, value);
    lemma_first_value_set(entries_of(parse_conf_result(text, path)), flag_of(key), value);
}

/// The value of the first entry for `flag`, if any.
proof fn lemma_first_value(es: Seq<(Seq<char>, Seq<char>)>, flag: Seq<char>)
    ensures
        first_value(es, flag) is None <==> forall|j: int| 0 <= j < es.len() ==> (#[trigger] es[j]).0 != flag,
        first_value(es, flag) matches Some(v) ==> exists|i: int|
            0 <= i < es.len() && #[trigger] es[i] == (flag, v) && forall|j: int|
                0 <= j < i ==> (#[trigger] es[j]).0 != flag,
    decreases es.len(),
{
    if es.len() > 0 {
        let r = es.drop_first();
        lemma_first_value(r, flag);
        assert forall|j: int| 0 <= j < r.len() implies r[j] == es[j + 1] by {}
        if es[0].0 != flag {
            if first_value(r, flag) is None {
                assert forall|j: int| 0 <= j < es.len() implies (#[trigger] es[j]).0 != flag by {
                    if j > 0 {
                        assert(r[j - 1] == es[j]);
                    }
                }
            } else {
                let v = first_value(r, flag)->0;
                let i = choose|i: int|
                    0 <= i < r.len() && #[trigger] r[i] == (flag, v) && forall|j: int|
                        0 <= j < i ==> (#[trigger] r[j]).0 != flag;
                assert(es[i + 1] == (flag, v));
                assert forall|j: int| 0 <= j < i + 1 implies (#[trigger] es[j]).0 != flag by {
                    if j > 0 {
                        assert(r[j - 1] == es[j]);
                    }
                }
                let k = choose|k: int| 0 <= k < r.len() && !((#[trigger] r[k]).0 != flag);
                assert(es[k + 1] == r[k]);
            }
        } else {
            assert(es[0] == (flag, es[0].1));
        }
    }
}

/// Looking a default up gives the value of the first `--KEY=` entry of the
/// file; the missing-entry error exactly when no entry sets the key; and the
/// file's own error when it cannot be read as entries.
pub proof fn law_lookup_takes_first_entry(text: Seq<char>, path: Seq<char>, key: Seq<char>)
    ensures
        match parse_conf_result(text, path) {
            Err(e) => lookup_result(text, path, key) == Err::<Seq<char>, ConfigErrorView>(e),
            Ok(es) => match lookup_result(text, path, key) {
                Ok(v) => exists|i: int|
                    0 <= i < es.len() && #[trigger] es[i] == ("--"@ + key, v) && forall|j: int|
                        0 <= j < i ==> (#[trigger] es[j]).0 != "--"@ + key,
                Err(e) => e == ConfigErrorView::MissingEntry { flag: "--"@ + key, path, key }
                    && forall|j: int| 0 <= j < es.len() ==> (#[trigger] es[j]).0 != "--"@ + key,
            },
        },
{
    if parse_conf_result(text, path) is Ok {
        lemma_first_value(parse_conf_result(text, path)->Ok_0, flag_of(key));
    }
}

/// The settings of a list of entries: the value of the last `--card` entry
/// and of the last `--profile` entry, unless some entry sets another flag,
/// in which case the first such flag is refused.
proof fn lemma_file_settings(es: Seq<(Seq<char>, Seq<char>)>)
    ensures
        match file_settings(es) {
            Err(f) => exists|i: int|
                0 <= i < es.len() && (#[trigger] es[i]).0 == f && f != "--card"@ && f != "--profile"@
                    && forall|j: int|
                    0 <= j < i ==> (#[trigger] es[j]).0 == "--card"@ || es[j].0 == "--profile"@,
            Ok((c, p)) => {
                &&& forall|j: int|
                    0 <= j < es.len() ==> (#[trigger] es[j]).0 == "--card"@ || es[j].0 == "--profile"@
                &&& (c is None <==> forall|j: int| 0 <= j < es.len() ==> (#[trigger] es[j]).0 != "--card"@)
                &&& (c matches Some(v) ==> exists|i: int|
                    0 <= i < es.len() && #[trigger] es[i] == ("--card"@, v) && forall|j: int|
                        i < j < es.len() ==> (#[trigger] es[j]).0 != "--card"@)
                &&& (p is None <==> forall|j: int| 0 <= j < es.len() ==> (#[trigger] es[j]).0 != "--profile"@)
                &&& (p matches Some(v) ==> exists|i: int|
                    0 <= i < es.len() && #[trigger] es[i] == ("--profile"@, v) && forall|j: int|
                        i < j < es.len() ==> (#[trigger] es[j]).0 != "--profile"@)
            },
        },
    decreases es.len(),
{
    reveal_strlit("--card");
    reveal_strlit("--profile");
    assert("--card"@ != "--profile"@) by {
        assert("--card"@.len() != "--profile"@.len());
    }
    if es.len() > 0 {
        let q = es.drop_last();
        let n = es.len() - 1;
        lemma_file_settings(q);
        assert forall|j: int| 0 <= j < q.len() implies q[j] == es[j] by {}
        assert(es[n] == es.last());
        match file_settings(q) {
            Err(f) => {
                let i = choose|i: int|
                    0 <= i < q.len() && (#[trigger] q[i]).0 == f && f != "--card"@ && f != "--profile"@
                        && forall|j: int|
                        0 <= j < i ==> (#[trigger] q[j]).0 == "--card"@ || q[j].0 == "--profile"@;
                assert(es[i] == q[i]);
                assert forall|j: int| 0 <= j < i implies (#[trigger] es[j]).0 == "--card"@ || es[j].0 == "--profile"@ by {
                    assert(q[j] == es[j]);
                }
            },
            Ok((c, p)) => {
                let (f, v) = es.last();
                assert forall|j: int| 0 <= j < n implies (#[trigger] es[j]).0 == "--card"@ || es[j].0 == "--profile"@ by {
                    assert(q[j] == es[j]);
                }
                if f == "--card"@ {
                    assert(es[n] == ("--card"@, v));
                    if let Some(w) = p {
                        let i = choose|i: int|
                            0 <= i < q.len() && #[trigger] q[i] == ("--profile"@, w) && forall|j: int|
                                i < j < q.len() ==> (#[trigger] q[j]).0 != "--profile"@;
                        assert(es[i] == q[i]);
                        assert forall|j: int| i < j < es.len() implies (#[trigger] es[j]).0 != "--profile"@ by {
                            if j < n {
                                assert(q[j] == es[j]);
                            }
                        }
                    } else {
                        assert forall|j: int| 0 <= j < es.len() implies (#[trigger] es[j]).0 != "--profile"@ by {
                            if j < n {
                                assert(q[j] == es[j]);
                            }
                        }
                    }
                } else if f == "--profile"@ {
                    assert(es[n] == ("--profile"@, v));
                    if let Some(w) = c {
                        let i = choose|i: int|
                            0 <= i < q.len() && #[trigger] q[i] == ("--card"@, w) && forall|j: int|
                                i < j < q.len() ==> (#[trigger] q[j]).0 != "--card"@;
                        assert(es[i] == q[i]);
                        assert forall|j: int| i < j < es.len() implies (#[trigger] es[j]).0 != "--card"@ by {
                            if j < n {
                                assert(q[j] == es[j]);
                            }
                        }
                    } else {
                        assert forall|j: int| 0 <= j < es.len() implies (#[trigger] es[j]).0 != "--card"@ by {
                            if j < n {
                                assert(q[j] == es[j]);
                            }
                        }
                    }
                } else {
                    assert(es[n].0 == f);
                }
            },
        }
    }
}

/// Loading the file gives the value of its last `--card` entry and of its
/// last `--profile` entry (none where it has none), unless an entry sets
/// another flag: then the first such flag is refused; and the file's own
/// error when it cannot be read as entries.
pub proof fn law_load_takes_last_entries(text: Seq<char>, path: Seq<char>)
    ensures
        match parse_conf_result(text, path) {
            Err(e) => load_result(text, path) == Err::<(Option<Seq<char>>, Option<Seq<char>>), ConfigErrorView>(e),
            Ok(es) => match load_result(text, path) {
                Err(e) => exists|i: int|
                    0 <= i < es.len() && e == ConfigErrorView::UnsupportedFlag { flag: (#[trigger] es[i]).0, path }
                        && es[i].0 != "--card"@ && es[i].0 != "--profile"@ && forall|j: int|
                        0 <= j < i ==> (#[trigger] es[j]).0 == "--card"@ || es[j].0 == "--profile"@,
                Ok((c, p)) => {
                    &&& (c is None <==> forall|j: int| 0 <= j < es.len() ==> (#[trigger] es[j]).0 != "--card"@)
                    &&& (c matches Some(v) ==> exists|i: int|
                        0 <= i < es.len() && #[trigger] es[i] == ("--card"@, v) && forall|j: int|
                            i < j < es.len() ==> (#[trigger] es[j]).0 != "--card"@)
                    &&& (p is None <==> forall|j: int| 0 <= j < es.len() ==> (#[trigger] es[j]).0 != "--profile"@)
                    &&& (p matches Some(v) ==> exists|i: int|
                        0 <= i < es.len() && #[trigger] es[i] == ("--profile"@, v) && forall|j: int|
                            i < j < es.len() ==> (#[trigger] es[j]).0 != "--profile"@)
                },
            },
        },
{
    if parse_conf_result(text, path) is Ok {
        let es = parse_conf_result(text, path)->Ok_0;
        lemma_file_settings(es);
        if file_settings(es) is Err {
            let f = file_settings(es)->Err_0;
            let i = choose|i: int|
                0 <= i < es.len() && (#[trigger] es[i]).0 == f && f != "--card"@ && f != "--profile"@
                    && forall|j: int|
                    0 <= j < i ==> (#[trigger] es[j]).0 == "--card"@ || es[j].0 == "--profile"@;
            assert(es[i].0 == f);
        }
    }
}

} // verus!

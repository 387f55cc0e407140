//! Suspend and resume as `dbus-monitor` shows them: a line naming the
//! `PrepareForSleep` signal, followed by a line with its boolean argument.
use vstd::prelude::*;
use crate::events::SleepTransition;
use crate::text::{chars_of, contains, contains_exec};

verus! {

/// What a line of the `dbus-monitor` output means, given whether a
/// `PrepareForSleep` argument is awaited: the transition it announces, and
/// whether an argument is awaited after it.
pub open spec fn sleep_line(l: Seq<char>, expecting: bool) -> (Option<SleepTransition>, bool) {
    if contains(l, "member=PrepareForSleep"@) {
        (None, true)
    } else if !expecting || !contains(l, "boolean "@) {
        (None, expecting)
    } else if contains(l, "boolean true"@) {
        (Some(SleepTransition::Sleeping), false)
    } else if contains(l, "boolean false"@) {
        (Some(SleepTransition::Waking), false)
    } else {
        (None, false)
    }
}

/// Reads one line of `dbus-monitor --system --monitor` output filtered on
/// `PrepareForSleep`: the signal line arms `expect_state`, and the first
/// boolean line after it gives the transition (`true` going to sleep,
/// `false` waking up) and disarms it.
pub fn parse_line(line: &str, expect_state: &mut bool) -> (r: Option<SleepTransition>)
    ensures
        (r, *final(expect_state)) == sleep_line(line@, *old(expect_state)),
{
    let cs = chars_of(line);
    assert(cs@.subrange(0, cs@.len() as int) =~= cs@);
    if contains_exec(&cs, 0, cs.len(), &chars_of("member=PrepareForSleep")) {
        *expect_state = true;
        return None;
    }
    if !*expect_state || !contains_exec(&cs, 0, cs.len(), &chars_of("boolean ")) {
        return None;
    }
    *expect_state = false;
    if contains_exec(&cs, 0, cs.len(), &chars_of("boolean true")) {
        Some(SleepTransition::Sleeping)
    } else if contains_exec(&cs, 0, cs.len(), &chars_of("boolean false")) {
        Some(SleepTransition::Waking)
    } else {
        None
    }
}

// ---------------------------------------------------------------------------
// Over a sequence of lines
// ---------------------------------------------------------------------------
/// The line names the `PrepareForSleep` signal.
pub open spec fn is_signal_line(l: Seq<char>) -> bool {
    contains(l, "member=PrepareForSleep"@)
}

/// The line carries a boolean argument.
pub open spec fn is_boolean_line(l: Seq<char>) -> bool {
    contains(l, "boolean "@)
}

/// Feeding `ls` to `parse_line` in order, starting with `expecting`: the
/// answer for each line, and whether an argument is awaited at the end.
pub open spec fn sleep_run(ls: Seq<Seq<char>>, expecting: bool) -> (
    Seq<Option<SleepTransition>>,
    bool,
)
    decreases ls.len(),
{
    if ls.len() == 0 {
        (seq![], expecting)
    } else {
        let (outs, e) = sleep_run(ls.drop_last(), expecting);
        let (o, e2) = sleep_line(ls.last(), e);
        (outs.push(o), e2)
    }
}

/// A signal line occurs in `ls`, and no later line of `ls` is a signal
/// line or a boolean line.
pub open spec fn pending_signal(ls: Seq<Seq<char>>) -> bool {
    exists|j: int|
        0 <= j < ls.len() && is_signal_line(#[trigger] ls[j]) && forall|k: int|
            j < k < ls.len() ==> !is_signal_line(#[trigger] ls[k]) && !is_boolean_line(ls[k])
}

/// One answer per line, the earlier ones unchanged by later lines.
proof fn lemma_run_answers(ls: Seq<Seq<char>>, expecting: bool, i: int)
    requires
        0 <= i < ls.len(),
    ensures
        sleep_run(ls, expecting).0.len() == ls.len(),
        sleep_run(ls, expecting).0[i] == sleep_line(ls[i], sleep_run(ls.take(i), expecting).1).0,
    decreases ls.len(),
{
    lemma_run_len(ls, expecting);
    if i == ls.len() - 1 {
        assert(ls.take(i) =~= ls.drop_last());
    } else {
        lemma_run_answers(ls.drop_last(), expecting, i);
        assert(ls.drop_last().take(i) =~= ls.take(i));
    }
}

/// One answer per line.
proof fn lemma_run_len(ls: Seq<Seq<char>>, expecting: bool)
    ensures
        sleep_run(ls, expecting).0.len() == ls.len(),
    decreases ls.len(),
{
    if ls.len() > 0 {
        lemma_run_len(ls.drop_last(), expecting);
    }
}

/// Starting with nothing awaited, an argument is awaited exactly after a
/// signal line that no signal line or boolean line has followed.
proof fn lemma_run_awaits(ls: Seq<Seq<char>>)
    ensures
        sleep_run(ls, false).1 == pending_signal(ls),
    decreases ls.len(),
{
    if ls.len() > 0 {
        let p = ls.drop_last();
        let l = ls.last();
        let n = ls.len() - 1;
        lemma_run_awaits(p);
        assert(ls[n] == l);
        if is_signal_line(l) {
            assert(pending_signal(ls)) by {
                assert(is_signal_line(ls[n]));
            }
        } else if is_boolean_line(l) {
            assert(!pending_signal(ls)) by {
                if pending_signal(ls) {
                    let j = choose|j: int|
                        0 <= j < ls.len() && is_signal_line(#[trigger] ls[j]) && forall|k: int|
                            j < k < ls.len() ==> !is_signal_line(#[trigger] ls[k])
                                && !is_boolean_line(ls[k]);
                    assert(j != n);
                    assert(!is_boolean_line(ls[n]));
                }
            }
        } else {
            if pending_signal(p) {
                let j = choose|j: int|
                    0 <= j < p.len() && is_signal_line(#[trigger] p[j]) && forall|k: int|
                        j < k < p.len() ==> !is_signal_line(#[trigger] p[k])
                            && !is_boolean_line(p[k]);
                assert(is_signal_line(ls[j]));
                assert forall|k: int| j < k < ls.len() implies !is_signal_line(#[trigger] ls[k])
                    && !is_boolean_line(ls[k]) by {
                    if k < n {
                        assert(ls[k] == p[k]);
                    }
                }
            }
            if pending_signal(ls) {
                let j = choose|j: int|
                    0 <= j < ls.len() && is_signal_line(#[trigger] ls[j]) && forall|k: int|
                        j < k < ls.len() ==> !is_signal_line(#[trigger] ls[k])
                            && !is_boolean_line(ls[k]);
                assert(j != n);
                assert(is_signal_line(p[j]));
                assert forall|k: int| j < k < p.len() implies !is_signal_line(#[trigger] p[k])
                    && !is_boolean_line(p[k]) by {
                    assert(p[k] == ls[k]);
                }
            }
        }
    }
}

/// Fed a sequence of lines from the start, `parse_line` gives a transition
/// only on a boolean line that is not itself a signal line and that follows
/// a signal line with no signal line or boolean line between them: each
/// signal yields at most one transition, and a boolean line with no signal
/// pending yields none.
pub proof fn law_one_transition_per_signal(ls: Seq<Seq<char>>, i: int)
    requires
        0 <= i < ls.len(),
        sleep_run(ls, false).0[i] is Some,
    ensures
        sleep_run(ls, false).0.len() == ls.len(),
        is_boolean_line(ls[i]),
        !is_signal_line(ls[i]),
        exists|j: int|
            0 <= j < i && is_signal_line(#[trigger] ls[j]) && forall|k: int|
                j < k < i ==> !is_signal_line(#[trigger] ls[k]) && !is_boolean_line(ls[k]),
{
    lemma_run_answers(ls, false, i);
    let p = ls.take(i);
    lemma_run_awaits(p);
    assert(pending_signal(p));
    let j = choose|j: int|
        0 <= j < p.len() && is_signal_line(#[trigger] p[j]) && forall|k: int|
            j < k < p.len() ==> !is_signal_line(#[trigger] p[k]) && !is_boolean_line(p[k]);
    assert(is_signal_line(ls[j]));
    assert forall|k: int| j < k < i implies !is_signal_line(#[trigger] ls[k]) && !is_boolean_line(
        ls[k],
    ) by {
        assert(p[k] == ls[k]);
    }
}

/// With a signal pending, the first boolean line gives the transition:
/// `boolean true` announces the suspend, `boolean false` the resume; a
/// line without a pending signal gives nothing.
pub proof fn law_boolean_gives_transition(l: Seq<char>, expecting: bool)
    ensures
        !is_signal_line(l) && expecting && contains(l, "boolean true"@) ==> sleep_line(l, expecting)
            == (Some(SleepTransition::Sleeping), false),
        !is_signal_line(l) && expecting && contains(l, "boolean false"@) && !contains(
            l,
            "boolean true"@,
        ) ==> sleep_line(l, expecting) == (Some(SleepTransition::Waking), false),
        !expecting ==> sleep_line(l, expecting).0 is None,
        is_signal_line(l) ==> sleep_line(l, expecting) == (None::<SleepTransition>, true),
{
    reveal_strlit("boolean true");
    reveal_strlit("boolean false");
    reveal_strlit("boolean ");
    if contains(l, "boolean true"@) {
        let i = choose|i: int| crate::text::occurs_at(l, "boolean true"@, i);
        assert(l.subrange(i, i + 8) =~= "boolean "@);
        assert(crate::text::occurs_at(l, "boolean "@, i));
    }
    if contains(l, "boolean false"@) {
        let i = choose|i: int| crate::text::occurs_at(l, "boolean false"@, i);
        assert(l.subrange(i, i + 8) =~= "boolean "@);
        assert(crate::text::occurs_at(l, "boolean "@, i));
    }
}

} // verus!

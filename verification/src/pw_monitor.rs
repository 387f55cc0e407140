//! Node errors in the stream of `pw-dump --monitor`.
//!
//! `pw-dump` first prints the whole object graph as one JSON array, then one
//! JSON array per change.  A node that enters the `error` state is reported
//! once, and again only after it has left that state; nodes already in error
//! in the first dump are not reported.
use vstd::prelude::*;
use vstd::utf8::{decode_utf8, encode_utf8, is_char_boundary};
use vstd::string::StringSliceAdditionalSpecFns;
use std::collections::HashSet;
use serde_json::Value;
use crate::text::{
    chars_of, int_decimal, append_str, push_int_decimal, skip_space, str_eq, string_of,
    trim_start,
};

verus! {

broadcast use vstd::std_specs::hash::group_hash_axioms;

/// What the monitor reads of one element of a JSON array: the strings at
/// `/type`, `/info/state` and `/info/props/node.name`, and the integer at
/// `/id` (each absent when missing or of another JSON type).
#[derive(Debug, Clone, PartialEq, Eq)]
pub struct NodeFields {
    pub kind: Option<String>,
    pub id: Option<i64>,
    pub state: Option<String>,
    pub name: Option<String>,
}

/// The value of a node's fields.
pub struct NodeFieldsView {
    pub kind: Option<Seq<char>>,
    pub id: Option<i64>,
    pub state: Option<Seq<char>>,
    pub name: Option<Seq<char>>,
}

/// The value of an optional string.
pub open spec fn opt_text(o: Option<String>) -> Option<Seq<char>> {
    match o {
        Some(s) => Some(s@),
        None => None,
    }
}

impl View for NodeFields {
    type V = NodeFieldsView;

    open spec fn view(&self) -> NodeFieldsView {
        NodeFieldsView {
            kind: opt_text(self.kind),
            id: self.id,
            state: opt_text(self.state),
            name: opt_text(self.name),
        }
    }
}

/// The first JSON value of a text, as far as the monitor reads it.
pub enum JsonStep {
    /// The text holds no further value.
    Exhausted,
    /// The text does not begin with a complete, well-formed value.
    Invalid,
    /// An array, with the fields of its elements, and the number of bytes
    /// the value took.
    Array(Vec<NodeFields>, usize),
    /// Another value, and the number of bytes it took.
    Other(usize),
}

/// The value of a JSON step.
pub enum JsonStepView {
    Exhausted,
    Invalid,
    Array(Seq<NodeFieldsView>, nat),
    Other(nat),
}

/// The values of a list of node fields.
pub open spec fn nodes_view(v: Seq<NodeFields>) -> Seq<NodeFieldsView> {
    v.map_values(|n: NodeFields| n@)
}

impl View for JsonStep {
    type V = JsonStepView;

    open spec fn view(&self) -> JsonStepView {
        match self {
            JsonStep::Exhausted => JsonStepView::Exhausted,
            JsonStep::Invalid => JsonStepView::Invalid,
            JsonStep::Array(items, off) => JsonStepView::Array(nodes_view(items@), *off as nat),
            JsonStep::Other(off) => JsonStepView::Other(*off as nat),
        }
    }
}

/// What `serde_json`'s streaming deserializer reads first from `text`.
pub uninterp spec fn json_step(text: Seq<char>) -> JsonStepView;

/// Reads the first JSON value of `text` with `serde_json`'s
/// `StreamDeserializer` (`Deserializer::from_str(..).into_iter::<Value>()`,
/// then `next` and `byte_offset`), taking from each array element the
/// fields that `Value::pointer` finds.  The contract only names the result:
/// it is a function of the text.
#[verifier::external_body]
fn next_json(text: &str) -> (r: JsonStep)
    ensures
        r@ == json_step(text@),
{
    let mut stream = serde_json::Deserializer::from_str(text).into_iter::<Value>();
    let next = stream.next();
    let end = stream.byte_offset();
    match next {
        None => JsonStep::Exhausted,
        Some(Err(_)) => JsonStep::Invalid,
        Some(Ok(Value::Array(items))) => JsonStep::Array(items.iter().map(|v| NodeFields {
            kind: v.pointer("/type").and_then(Value::as_str).map(String::from),
            id: v.pointer("/id").and_then(Value::as_i64),
            state: v.pointer("/info/state").and_then(Value::as_str).map(String::from),
            name: v.pointer("/info/props/node.name").and_then(Value::as_str).map(String::from),
        }).collect(), end),
        Some(Ok(_)) => JsonStep::Other(end),
    }
}

/// The report for a node that entered the error state.
pub open spec fn error_report(name: Option<Seq<char>>, id: i64) -> Seq<char> {
    "node "@ + match name {
        Some(n) => n,
        None => "id="@ + int_decimal(id as int),
    } + " entered error state"@
}

/// The effect of one array element on the set of nodes known to be in
/// error and on the reports: only `PipeWire:Interface:Node` elements with
/// an id count; a node in state `error` is reported when reporting has
/// started and it was not known to be in error; any other state clears it.
pub open spec fn node_step(done: bool, seen: Set<i64>, errors: Seq<Seq<char>>, n: NodeFieldsView) -> (
    Set<i64>,
    Seq<Seq<char>>,
) {
    if n.kind != Some("PipeWire:Interface:Node"@) {
        (seen, errors)
    } else {
        match n.id {
            None => (seen, errors),
            Some(id) => if n.state == Some("error"@) {
                (
                    seen.insert(id),
                    if done && !seen.contains(id) {
                        errors.push(error_report(n.name, id))
                    } else {
                        errors
                    },
                )
            } else {
                (seen.remove(id), errors)
            },
        }
    }
}

/// The effect of the elements of an array, in order.
pub open spec fn nodes_step(done: bool, seen: Set<i64>, errors: Seq<Seq<char>>, items: Seq<NodeFieldsView>) -> (
    Set<i64>,
    Seq<Seq<char>>,
)
    decreases items.len(),
{
    if items.len() == 0 {
        (seen, errors)
    } else {
        let (s, e) = nodes_step(done, seen, errors, items.drop_last());
        node_step(done, s, e, items.last())
    }
}

/// The values of a list of strings.
pub open spec fn strings_view(v: Seq<String>) -> Seq<Seq<char>> {
    v.map_values(|s: String| s@)
}

/// Applies the elements of one array to the set of nodes in error, adding
/// the reports to `errors`.
pub fn apply_nodes(
    items: &Vec<NodeFields>,
    initial_done: bool,
    seen_error_ids: &mut HashSet<i64>,
    errors: &mut Vec<String>,
)
    ensures
        (final(seen_error_ids)@, strings_view(final(errors)@)) == nodes_step(
            initial_done,
            old(seen_error_ids)@,
            strings_view(old(errors)@),
            nodes_view(items@),
        ),
{
    let ghost all = nodes_view(items@);
    let mut i: usize = 0;
    assert(all.take(0) =~= seq![]);
    while i < items.len()
        invariant
            i <= items.len(),
            all == nodes_view(items@),
            (seen_error_ids@, strings_view(errors@)) == nodes_step(
                initial_done,
                old(seen_error_ids)@,
                strings_view(old(errors)@),
                all.take(i as int),
            ),
        decreases items.len() - i,
    {
        let ghost cur = all.take(i + 1);
        assert(cur.drop_last() =~= all.take(i as int));
        assert(cur.last() == items@[i as int]@);
        let n = &items[i];
        let ghost s0 = seen_error_ids@;
        let ghost e0 = strings_view(errors@);
        assert(nodes_step(initial_done, old(seen_error_ids)@, strings_view(old(errors)@), cur)
            == node_step(initial_done, s0, e0, n@));
        let is_node = match &n.kind {
            Some(k) => str_eq(k.as_str(), "PipeWire:Interface:Node"),
            None => false,
        };
        assert(is_node == (n@.kind == Some("PipeWire:Interface:Node"@)));
        if is_node {
            match n.id {
                None => {},
                Some(id) => {
                    let in_error = match &n.state {
                        Some(s) => str_eq(s.as_str(), "error"),
                        None => false,
                    };
                    assert(in_error == (n@.state == Some("error"@)));
                    if in_error {
                        let known = seen_error_ids.contains(&id);
                        assert(known == s0.contains(id));
                        if initial_done && !known {
                            let mut m = "node ".to_owned();
                            match &n.name {
                                Some(x) => append_str(&mut m, x.as_str()),
                                None => {
                                    append_str(&mut m, "id=");
                                    push_int_decimal(&mut m, id);
                                },
                            }
                            append_str(&mut m, " entered error state");
                            assert(m@ =~= error_report(n@.name, id));
                            let ghost before = errors@;
                            errors.push(m);
                            assert(strings_view(errors@) =~= strings_view(before).push(m@));
                        }
                        seen_error_ids.insert(id);
                        assert(seen_error_ids@ == s0.insert(id));
                    } else {
                        seen_error_ids.remove(&id);
                        assert(seen_error_ids@ == s0.remove(id));
                    }
                },
            }
        }
        i += 1;
    }
    assert(all.take(i as int) =~= all);
}

/// `off` bytes of `rest` form the value just read: what the stream
/// deserializer reports after a value, checked before the rest is taken.
pub open spec fn step_ok(rest: Seq<char>, off: nat) -> bool {
    0 < off && off <= encode_utf8(rest).len() && is_char_boundary(encode_utf8(rest), off as int)
}

/// The text after its first `off` bytes.
pub open spec fn after_bytes(rest: Seq<char>, off: nat) -> Seq<char> {
    decode_utf8(encode_utf8(rest).subrange(off as int, encode_utf8(rest).len() as int))
}

/// Trimming never lengthens a text.
pub proof fn lemma_trim_start_len(s: Seq<char>)
    ensures
        trim_start(s).len() <= s.len(),
    decreases s.len(),
{
    if s.len() > 0 && crate::text::is_space(s[0]) {
        lemma_trim_start_len(s.drop_first());
    }
}

/// What follows a value is shorter than the text.
pub proof fn lemma_after_bytes_shorter(rest: Seq<char>, off: nat)
    requires
        step_ok(rest, off),
    ensures
        after_bytes(rest, off).len() < rest.len(),
{
    let b = encode_utf8(rest);
    vstd::utf8::encode_utf8_valid_utf8(rest);
    vstd::utf8::encode_utf8_decode_utf8(rest);
    vstd::utf8::decode_utf8_split(b, off as int);
    vstd::utf8::valid_utf8_split(b, off as int);
    let head = b.subrange(0, off as int);
    assert(head.len() > 0);
    assert(decode_utf8(head).len() > 0);
}

/// The state after reading every complete value at the start of `rest`:
/// the text left over, whether the first dump has been read, the nodes
/// known to be in error, and the reports.  Each array is applied with
/// `nodes_step` and marks the first dump as read; whitespace between values
/// is skipped; reading stops at the end of the text, at an incomplete or
/// malformed value, or where the stream does not report a step.
pub open spec fn drain(rest: Seq<char>, done: bool, seen: Set<i64>, errors: Seq<Seq<char>>) -> (
    Seq<char>,
    bool,
    Set<i64>,
    Seq<Seq<char>>,
)
    decreases rest.len(),
{
    if rest.len() == 0 {
        (rest, done, seen, errors)
    } else {
        match json_step(rest) {
            JsonStepView::Array(items, off) => if step_ok(rest, off) {
                proof {
                    lemma_after_bytes_shorter(rest, off);
                    lemma_trim_start_len(after_bytes(rest, off));
                }
                let (s2, e2) = nodes_step(done, seen, errors, items);
                drain(trim_start(after_bytes(rest, off)), true, s2, e2)
            } else {
                (rest, done, seen, errors)
            },
            JsonStepView::Other(off) => if step_ok(rest, off) {
                proof {
                    lemma_after_bytes_shorter(rest, off);
                    lemma_trim_start_len(after_bytes(rest, off));
                }
                drain(trim_start(after_bytes(rest, off)), done, seen, errors)
            } else {
                (rest, done, seen, errors)
            },
            _ => (rest, done, seen, errors),
        }
    }
}

/// The text after a value, with leading whitespace removed.
fn rest_after(rest: &String, off: usize) -> (r: String)
    requires
        step_ok(rest@, off as nat),
    ensures
        r@ == trim_start(after_bytes(rest@, off as nat)),
{
    let s = rest.as_str();
    let (_, right) = s.split_at(off);
    proof {
        vstd::utf8::encode_utf8_decode_utf8(right@);
        assert(right.spec_bytes() =~= encode_utf8(rest@).subrange(
            off as int,
            encode_utf8(rest@).len() as int,
        ));
    }
    let rc = chars_of(right);
    let k = skip_space(&rc, 0, rc.len());
    assert(rc@.subrange(0, rc@.len() as int) =~= rc@);
    string_of(&rc, k, rc.len())
}

/// Reads every complete JSON value at the start of `buffer`, reporting
/// nodes that enter the error state.  Returns the text left over (whitespace
/// before it removed), whether the first dump has been read, and the
/// reports; `seen_error_ids` holds the nodes known to be in error.
pub fn extract_errors(
    buffer: &str,
    initial_done: bool,
    seen_error_ids: &mut HashSet<i64>,
) -> (r: (String, bool, Vec<String>))
    ensures
        (r.0@, r.1, final(seen_error_ids)@, strings_view(r.2@)) == drain(
            trim_start(buffer@),
            initial_done,
            old(seen_error_ids)@,
            seq![],
        ),
{
    let cs = chars_of(buffer);
    let a = skip_space(&cs, 0, cs.len());
    assert(cs@.subrange(0, cs@.len() as int) =~= cs@);
    let mut rest = string_of(&cs, a, cs.len());
    let mut done = initial_done;
    let mut errors: Vec<String> = Vec::new();
    assert(strings_view(errors@) =~= seq![]);
    loop
        invariant
            drain(trim_start(buffer@), initial_done, old(seen_error_ids)@, seq![]) == drain(
                rest@,
                done,
                seen_error_ids@,
                strings_view(errors@),
            ),
        decreases rest@.len(),
    {
        if rest.as_str().is_empty() {
            return (String::new(), done, errors);
        }
        match next_json(rest.as_str()) {
            JsonStep::Array(items, off) => {
                if off == 0 || !rest.as_str().is_char_boundary(off) {
                    return (rest, done, errors);
                }
                proof {
                    vstd::utf8::encode_utf8_valid_utf8(rest@);
                    vstd::utf8::is_char_boundary_start_end_of_seq(encode_utf8(rest@));
                    lemma_after_bytes_shorter(rest@, off as nat);
                    lemma_trim_start_len(after_bytes(rest@, off as nat));
                }
                let next = rest_after(&rest, off);
                apply_nodes(&items, done, seen_error_ids, &mut errors);
                done = true;
                rest = next;
            },
            JsonStep::Other(off) => {
                if off == 0 || !rest.as_str().is_char_boundary(off) {
                    return (rest, done, errors);
                }
                proof {
                    vstd::utf8::encode_utf8_valid_utf8(rest@);
                    vstd::utf8::is_char_boundary_start_end_of_seq(encode_utf8(rest@));
                    lemma_after_bytes_shorter(rest@, off as nat);
                    lemma_trim_start_len(after_bytes(rest@, off as nat));
                }
                rest = rest_after(&rest, off);
            },
            _ => {
                return (rest, done, errors);
            },
        }
    }
}

// ---------------------------------------------------------------------------
// Laws of the node error reports
// ---------------------------------------------------------------------------
/// The id of an element that is a node with an id.
pub open spec fn node_id(n: NodeFieldsView) -> Option<i64> {
    if n.kind == Some("PipeWire:Interface:Node"@) {
        n.id
    } else {
        None
    }
}

/// The element reports its node in the error state.
pub open spec fn in_error(n: NodeFieldsView) -> bool {
    n.state == Some("error"@)
}

/// No node id occurs twice among the elements.
pub open spec fn distinct_nodes(items: Seq<NodeFieldsView>) -> bool {
    forall|i: int, j: int|
        0 <= i < j < items.len() && (#[trigger] node_id(items[i])) is Some ==> node_id(items[i])
            != #[trigger] node_id(items[j])
}

/// The nodes of the first dump are never reported, whatever their state.
pub proof fn law_first_dump_not_reported(
    seen: Set<i64>,
    errors: Seq<Seq<char>>,
    items: Seq<NodeFieldsView>,
)
    ensures
        nodes_step(false, seen, errors, items).1 == errors,
    decreases items.len(),
{
    if items.len() > 0 {
        law_first_dump_not_reported(seen, errors, items.drop_last());
    }
}

/// After an array whose node ids are distinct, a node is known to be in
/// error exactly when the array shows it in error; nodes that it does not
/// list keep their standing.
pub proof fn lemma_known_after(
    done: bool,
    seen: Set<i64>,
    errors: Seq<Seq<char>>,
    items: Seq<NodeFieldsView>,
)
    requires
        distinct_nodes(items),
    ensures
        forall|j: int|
            0 <= j < items.len() && (#[trigger] node_id(items[j])) is Some ==> (nodes_step(
                done,
                seen,
                errors,
                items,
            ).0.contains(node_id(items[j])->0) <==> in_error(items[j])),
        forall|x: i64|
            (forall|j: int| 0 <= j < items.len() ==> node_id(#[trigger] items[j]) != Some(x))
                ==> (nodes_step(done, seen, errors, items).0.contains(x) == seen.contains(x)),
    decreases items.len(),
{
    if items.len() > 0 {
        let prev = items.drop_last();
        assert(distinct_nodes(prev)) by {
            assert forall|i: int, j: int|
                0 <= i < j < prev.len() && (#[trigger] node_id(prev[i])) is Some implies node_id(
                    prev[i],
                ) != #[trigger] node_id(prev[j]) by {
                assert(prev[i] == items[i] && prev[j] == items[j]);
            }
        }
        lemma_known_after(done, seen, errors, prev);
        let n = items.last();
        let k = items.len() - 1;
        assert forall|j: int|
            0 <= j < items.len() && (#[trigger] node_id(items[j])) is Some implies (nodes_step(
            done,
            seen,
            errors,
            items,
        ).0.contains(node_id(items[j])->0) <==> in_error(items[j])) by {
            if j < k {
                assert(prev[j] == items[j]);
                assert(node_id(items[j]) != node_id(items[k]));
            }
        }
        assert forall|x: i64|
            (forall|j: int| 0 <= j < items.len() ==> node_id(#[trigger] items[j]) != Some(x))
                implies (nodes_step(done, seen, errors, items).0.contains(x) == seen.contains(x)) by {
            assert(node_id(items[k]) != Some(x));
            assert forall|j: int| 0 <= j < prev.len() implies node_id(#[trigger] prev[j]) != Some(
                x,
            ) by {
                assert(prev[j] == items[j]);
            }
        }
    }
}

proof fn lemma_replay_prefix(
    done: bool,
    seen: Set<i64>,
    errors: Seq<Seq<char>>,
    items: Seq<NodeFieldsView>,
    k: int,
)
    requires
        distinct_nodes(items),
        0 <= k <= items.len(),
    ensures
        ({
            let (s1, e1) = nodes_step(done, seen, errors, items);
            nodes_step(done, s1, e1, items.take(k)).1 == e1
        }),
    decreases k,
{
    let (s1, e1) = nodes_step(done, seen, errors, items);
    if k > 0 {
        lemma_replay_prefix(done, seen, errors, items, k - 1);
        let pre = items.take(k - 1);
        assert(items.take(k).drop_last() =~= pre);
        assert(items.take(k).last() == items[k - 1]);
        let n = items[k - 1];
        if node_id(n) is Some && in_error(n) {
            let x = node_id(n)->0;
            lemma_known_after(done, seen, errors, items);
            assert(distinct_nodes(pre)) by {
                assert forall|i: int, j: int|
                    0 <= i < j < pre.len() && (#[trigger] node_id(pre[i])) is Some implies node_id(
                        pre[i],
                    ) != #[trigger] node_id(pre[j]) by {
                    assert(pre[i] == items[i] && pre[j] == items[j]);
                }
            }
            lemma_known_after(done, s1, e1, pre);
            assert forall|j: int| 0 <= j < pre.len() implies node_id(#[trigger] pre[j]) != Some(x) by {
                assert(pre[j] == items[j]);
                if node_id(items[j]) is Some {
                    assert(node_id(items[j]) != node_id(items[k - 1]));
                }
            }
            assert(s1.contains(x));
        }
    }
}

/// A node is not reported twice for the same stretch in error: applying the
/// same array again, when its node ids are distinct, reports nothing new.
pub proof fn law_repeated_dump_not_reported(
    done: bool,
    seen: Set<i64>,
    errors: Seq<Seq<char>>,
    items: Seq<NodeFieldsView>,
)
    requires
        distinct_nodes(items),
    ensures
        ({
            let (s1, e1) = nodes_step(done, seen, errors, items);
            nodes_step(done, s1, e1, items).1 == e1
        }),
{
    lemma_replay_prefix(done, seen, errors, items, items.len() as int);
    assert(items.take(items.len() as int) =~= items);
}

/// A report names a node that was not known to be in error before.
pub proof fn law_report_only_on_entering_error(
    done: bool,
    seen: Set<i64>,
    errors: Seq<Seq<char>>,
    n: NodeFieldsView,
)
    ensures
        node_step(done, seen, errors, n).1 != errors ==> {
            &&& done
            &&& node_id(n) is Some
            &&& in_error(n)
            &&& !seen.contains(node_id(n)->0)
            &&& node_step(done, seen, errors, n).1 == errors.push(error_report(n.name, node_id(n)->0))
        },
        node_id(n) is Some ==> (node_step(done, seen, errors, n).0.contains(node_id(n)->0)
            <==> in_error(n)),
{
}

/// Trimming twice is trimming once.
proof fn lemma_trim_start_idem(s: Seq<char>)
    ensures
        trim_start(trim_start(s)) == trim_start(s),
    decreases s.len(),
{
    if s.len() > 0 && crate::text::is_space(s[0]) {
        lemma_trim_start_idem(s.drop_first());
    }
}

/// What a drain leaves over is trimmed, and draining it again stops at once.
proof fn lemma_drain_leftover(
    rest: Seq<char>,
    done: bool,
    seen: Set<i64>,
    errors: Seq<Seq<char>>,
    again: Seq<Seq<char>>,
)
    requires
        trim_start(rest) == rest,
    ensures
        ({
            let (r, d, s, e) = drain(rest, done, seen, errors);
            &&& trim_start(r) == r
            &&& drain(r, d, s, again) == (r, d, s, again)
        }),
    decreases rest.len(),
{
    if rest.len() > 0 {
        match json_step(rest) {
            JsonStepView::Array(items, off) => if step_ok(rest, off) {
                lemma_after_bytes_shorter(rest, off);
                lemma_trim_start_len(after_bytes(rest, off));
                lemma_trim_start_idem(after_bytes(rest, off));
                let (s2, e2) = nodes_step(done, seen, errors, items);
                lemma_drain_leftover(trim_start(after_bytes(rest, off)), true, s2, e2, again);
            },
            JsonStepView::Other(off) => if step_ok(rest, off) {
                lemma_after_bytes_shorter(rest, off);
                lemma_trim_start_len(after_bytes(rest, off));
                lemma_trim_start_idem(after_bytes(rest, off));
                lemma_drain_leftover(trim_start(after_bytes(rest, off)), done, seen, errors, again);
            },
            _ => {},
        }
    }
}

/// Reading again what a reading left over, with nothing added, changes
/// nothing and reports nothing: the text left over is read no further, the
/// first-dump flag and the nodes known to be in error stay as they are.
pub proof fn law_leftover_reads_no_further(buffer: Seq<char>, done: bool, seen: Set<i64>)
    ensures
        ({
            let (r, d, s, e) = drain(trim_start(buffer), done, seen, seq![]);
            drain(trim_start(r), d, s, seq![]) == (r, d, s, Seq::<Seq<char>>::empty())
        }),
{
    lemma_trim_start_idem(buffer);
    lemma_drain_leftover(trim_start(buffer), done, seen, seq![], seq![]);
}

/// After the first dump, a node that enters the error state is reported,
/// whatever was reported before it, as `node NAME entered error state`
/// (`node id=ID entered error state` when it has no name), and is then known
/// to be in error; a node in any other state is forgotten and not reported.
pub proof fn law_entering_error_is_reported(
    done: bool,
    seen: Set<i64>,
    errors: Seq<Seq<char>>,
    n: NodeFieldsView,
)
    ensures
        n.kind == Some("PipeWire:Interface:Node"@) ==> (n.id matches Some(x) ==> {
            &&& (done && n.state == Some("error"@) && !seen.contains(x)) ==> node_step(
                done,
                seen,
                errors,
                n,
            ) == (
                seen.insert(x),
                errors.push(
                    "node "@ + match n.name {
                        Some(m) => m,
                        None => "id="@ + int_decimal(x as int),
                    } + " entered error state"@,
                ),
            )
            &&& n.state != Some("error"@) ==> node_step(done, seen, errors, n) == (
                seen.remove(x),
                errors,
            )
        }),
{
}

/// The ids of the nodes among the elements.
pub open spec fn ids_of(items: Seq<NodeFieldsView>) -> Set<i64> {
    Set::new(|x: i64| exists|k: int| 0 <= k < items.len() && node_id(#[trigger] items[k]) == Some(x))
}

/// After the first dump, an array of distinct nodes that all enter the
/// error state, none known to be in error before, reports every one of
/// them, in order, after what was reported before, and all are then known
/// to be in error.
pub proof fn law_every_entering_node_is_reported(
    seen: Set<i64>,
    errors: Seq<Seq<char>>,
    items: Seq<NodeFieldsView>,
)
    requires
        distinct_nodes(items),
        forall|k: int|
            0 <= k < items.len() ==> (#[trigger] node_id(items[k])) is Some && in_error(items[k])
                && !seen.contains(node_id(items[k])->0),
    ensures
        nodes_step(true, seen, errors, items).1.len() == errors.len() + items.len(),
        nodes_step(true, seen, errors, items).1.take(errors.len() as int) == errors,
        forall|k: int|
            0 <= k < items.len() ==> nodes_step(true, seen, errors, items).1[errors.len() + k]
                == error_report((#[trigger] items[k]).name, node_id(items[k])->0),
        nodes_step(true, seen, errors, items).0 == seen.union(ids_of(items)),
    decreases items.len(),
{
    if items.len() == 0 {
        assert(ids_of(items) =~= Set::empty());
        assert(seen.union(ids_of(items)) =~= seen);
        assert(errors.take(errors.len() as int) =~= errors);
    } else {
        let p = items.drop_last();
        let n = items.last();
        let last = items.len() - 1;
        assert(items[last] == n);
        assert forall|i: int, j: int|
            0 <= i < j < p.len() && (#[trigger] node_id(p[i])) is Some implies node_id(p[i])
            != #[trigger] node_id(p[j]) by {
            assert(p[i] == items[i] && p[j] == items[j]);
        }
        assert forall|k: int| 0 <= k < p.len() implies (#[trigger] node_id(p[k])) is Some
            && in_error(p[k]) && !seen.contains(node_id(p[k])->0) by {
            assert(p[k] == items[k]);
        }
        law_every_entering_node_is_reported(seen, errors, p);
        let (s1, e1) = nodes_step(true, seen, errors, p);
        let x = node_id(n)->0;
        assert(node_id(items[last]) is Some);
        assert(!s1.contains(x)) by {
            if ids_of(p).contains(x) {
                let k = choose|k: int| 0 <= k < p.len() && node_id(#[trigger] p[k]) == Some(x);
                assert(p[k] == items[k]);
                assert(node_id(items[k]) != node_id(items[last]));
            }
        }
        assert(ids_of(items) =~= ids_of(p).insert(x)) by {
            assert forall|y: i64| ids_of(items).contains(y) implies ids_of(p).insert(x).contains(y) by {
                let k = choose|k: int| 0 <= k < items.len() && node_id(#[trigger] items[k]) == Some(y);
                if k < last {
                    assert(p[k] == items[k]);
                }
            }
            assert forall|y: i64| ids_of(p).insert(x).contains(y) implies ids_of(items).contains(y) by {
                if y != x {
                    let k = choose|k: int| 0 <= k < p.len() && node_id(#[trigger] p[k]) == Some(y);
                    assert(p[k] == items[k]);
                } else {
                    assert(node_id(items[last]) == Some(y));
                }
            }
        }
        assert(seen.union(ids_of(items)) =~= s1.insert(x));
        let e2 = nodes_step(true, seen, errors, items).1;
        assert(e2 == e1.push(error_report(n.name, x)));
        assert(e2.take(errors.len() as int) =~= e1.take(errors.len() as int));
        assert forall|k: int| 0 <= k < items.len() implies e2[errors.len() + k] == error_report(
            (#[trigger] items[k]).name,
            node_id(items[k])->0,
        ) by {
            if k < last {
                assert(p[k] == items[k]);
                assert(e1[errors.len() + k] == error_report(p[k].name, node_id(p[k])->0));
            }
        }
    }
}

/// Once the first dump has been read, it stays read.
proof fn lemma_drain_keeps_done(rest: Seq<char>, seen: Set<i64>, errors: Seq<Seq<char>>)
    ensures
        drain(rest, true, seen, errors).1,
    decreases rest.len(),
{
    if rest.len() > 0 {
        match json_step(rest) {
            JsonStepView::Array(items, off) => if step_ok(rest, off) {
                lemma_after_bytes_shorter(rest, off);
                lemma_trim_start_len(after_bytes(rest, off));
                let (s2, e2) = nodes_step(true, seen, errors, items);
                lemma_drain_keeps_done(trim_start(after_bytes(rest, off)), s2, e2);
            },
            JsonStepView::Other(off) => if step_ok(rest, off) {
                lemma_after_bytes_shorter(rest, off);
                lemma_trim_start_len(after_bytes(rest, off));
                lemma_drain_keeps_done(trim_start(after_bytes(rest, off)), seen, errors);
            },
            _ => {},
        }
    }
}

/// The first array read is the first dump: once a complete array has been
/// read, the dump counts as read, and its nodes are not reported.
pub proof fn law_first_array_is_the_dump(rest: Seq<char>, seen: Set<i64>, errors: Seq<Seq<char>>)
    ensures
        rest.len() > 0 ==> (json_step(rest) matches JsonStepView::Array(items, off) ==> (step_ok(
            rest,
            off,
        ) ==> {
            &&& drain(rest, false, seen, errors).1
            &&& nodes_step(false, seen, errors, items).1 == errors
        })),
{
    if rest.len() > 0 {
        if let JsonStepView::Array(items, off) = json_step(rest) {
            if step_ok(rest, off) {
                lemma_after_bytes_shorter(rest, off);
                lemma_trim_start_len(after_bytes(rest, off));
                let (s2, e2) = nodes_step(false, seen, errors, items);
                lemma_drain_keeps_done(trim_start(after_bytes(rest, off)), s2, e2);
                law_first_dump_not_reported(seen, errors, items);
            }
        }
    }
}

} // verus!

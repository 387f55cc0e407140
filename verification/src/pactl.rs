//! Sound cards as `pactl list cards` reports them, and the choices the
//! daemon makes among them: which card to act on and which profile to
//! restore after cycling through `off`.
use vstd::prelude::*;
use crate::card_lines::{
    active_capture, hdmi_line, label_capture, match_active, match_hdmi, match_label, match_name,
    match_profile, name_capture, priority_value, profile_capture, read_priority, CardPatterns,
};
use crate::text::{
    append_str, chars_eq, chars_of, decimal, line_spans, lines, push_decimal, starts_with,
    starts_with_exec, str_eq, string_of, contains,
};

verus! {

/// One profile of a card.
#[derive(Debug, Clone, PartialEq, Eq)]
pub struct Profile {
    pub available: String,
    pub name: String,
    pub priority: u32,
}

/// The value of a profile.
pub struct ProfileView {
    pub available: Seq<char>,
    pub name: Seq<char>,
    pub priority: u32,
}

impl View for Profile {
    type V = ProfileView;

    open spec fn view(&self) -> ProfileView {
        ProfileView { available: self.available@, name: self.name@, priority: self.priority }
    }
}

/// One sound card.
#[derive(Debug, Clone, PartialEq, Eq)]
pub struct Card {
    pub active_profile: Option<String>,
    pub has_hdmi: bool,
    pub label: Option<String>,
    pub name: String,
    pub profiles: Vec<Profile>,
}

/// The value of a card.
pub struct CardView {
    pub active_profile: Option<Seq<char>>,
    pub has_hdmi: bool,
    pub label: Option<Seq<char>>,
    pub name: Seq<char>,
    pub profiles: Seq<ProfileView>,
}

/// The value of an optional string.
pub open spec fn opt_view(o: Option<String>) -> Option<Seq<char>> {
    match o {
        Some(s) => Some(s@),
        None => None,
    }
}

/// The values of a list of profiles.
pub open spec fn profiles_view(ps: Seq<Profile>) -> Seq<ProfileView> {
    ps.map_values(|p: Profile| p@)
}

/// The values of a list of cards.
pub open spec fn cards_view(cs: Seq<Card>) -> Seq<CardView> {
    cs.map_values(|c: Card| c@)
}

impl View for Card {
    type V = CardView;

    open spec fn view(&self) -> CardView {
        CardView {
            active_profile: opt_view(self.active_profile),
            has_hdmi: self.has_hdmi,
            label: opt_view(self.label),
            name: self.name@,
            profiles: profiles_view(self.profiles@),
        }
    }
}

impl Profile {
    /// A copy of the profile.
    pub fn duplicate(&self) -> (r: Profile)
        ensures
            r@ == self@,
    {
        Profile {
            available: self.available.clone(),
            name: self.name.clone(),
            priority: self.priority,
        }
    }
}

/// A copy of an optional string.
pub fn opt_clone(o: &Option<String>) -> (r: Option<String>)
    ensures
        opt_view(r) == opt_view(*o),
{
    match o {
        Some(s) => Some(s.clone()),
        None => None,
    }
}

impl Card {
    /// A copy of the card.
    pub fn duplicate(&self) -> (r: Card)
        ensures
            r@ == self@,
    {
        let mut profiles: Vec<Profile> = Vec::new();
        let mut i: usize = 0;
        while i < self.profiles.len()
            invariant
                i <= self.profiles.len(),
                profiles_view(profiles@) == profiles_view(self.profiles@).take(i as int),
            decreases self.profiles.len() - i,
        {
            let ghost before = profiles@;
            let p = self.profiles[i].duplicate();
            profiles.push(p);
            assert(profiles@ == before.push(p));
            assert(profiles_view(profiles@) =~= profiles_view(before).push(p@));
            assert(profiles_view(self.profiles@).take(i + 1) =~= profiles_view(self.profiles@).take(
                i as int,
            ).push(self.profiles@[i as int]@));
            i += 1;
        }
        assert(profiles_view(self.profiles@).take(i as int) =~= profiles_view(self.profiles@));
        Card {
            active_profile: opt_clone(&self.active_profile),
            has_hdmi: self.has_hdmi,
            label: opt_clone(&self.label),
            name: self.name.clone(),
            profiles,
        }
    }
}

// ---------------------------------------------------------------------------
// The card report
// ---------------------------------------------------------------------------
/// The value of the last line of `ls` on which `f` captures something.
pub open spec fn last_capture(ls: Seq<Seq<char>>, f: spec_fn(Seq<char>) -> Option<Seq<char>>) -> Option<Seq<char>>
    decreases ls.len(),
{
    if ls.len() == 0 {
        None
    } else {
        match f(ls.last()) {
            Some(x) => Some(x),
            None => last_capture(ls.drop_last(), f),
        }
    }
}

/// The profile that a profile line describes.
pub open spec fn profile_of(cap: (Seq<char>, Seq<char>, bool)) -> ProfileView {
    ProfileView {
        available: if cap.2 {
            "yes"@
        } else {
            "no"@
        },
        name: cap.0,
        priority: priority_value(cap.1),
    }
}

/// The profiles that the lines of a block describe, in order.
pub open spec fn block_profiles(ls: Seq<Seq<char>>) -> Seq<ProfileView>
    decreases ls.len(),
{
    if ls.len() == 0 {
        seq![]
    } else {
        match profile_capture(ls.last()) {
            Some(cap) => block_profiles(ls.drop_last()).push(profile_of(cap)),
            None => block_profiles(ls.drop_last()),
        }
    }
}

/// Whether some line of the block names an HDMI port.
pub open spec fn block_has_hdmi(ls: Seq<Seq<char>>) -> bool {
    exists|i: int| 0 <= i < ls.len() && hdmi_line(#[trigger] ls[i])
}

/// The card that a block of report lines describes: none without a name
/// line; otherwise each single-valued field from the last line that gives
/// it, and every profile line in order.
pub open spec fn parse_block(ls: Seq<Seq<char>>) -> Option<CardView> {
    match last_capture(ls, |l: Seq<char>| name_capture(l)) {
        Some(name) => Some(
            CardView {
                active_profile: last_capture(ls, |l: Seq<char>| active_capture(l)),
                has_hdmi: block_has_hdmi(ls),
                label: last_capture(ls, |l: Seq<char>| label_capture(l)),
                name,
                profiles: block_profiles(ls),
            },
        ),
        None => None,
    }
}

/// A card header line.
pub open spec fn is_header(l: Seq<char>) -> bool {
    starts_with(l, "Card #"@)
}

/// The blocks of `ls` closed so far, and the block still open: header
/// lines close the open block, empty blocks are dropped.
pub open spec fn split_blocks(ls: Seq<Seq<char>>) -> (Seq<Seq<Seq<char>>>, Seq<Seq<char>>)
    decreases ls.len(),
{
    if ls.len() == 0 {
        (seq![], seq![])
    } else {
        let (done, open) = split_blocks(ls.drop_last());
        if is_header(ls.last()) {
            if open.len() > 0 {
                (done.push(open), seq![])
            } else {
                (done, seq![])
            }
        } else {
            (done, open.push(ls.last()))
        }
    }
}

/// The non-empty runs of lines between card headers.
pub open spec fn card_blocks(ls: Seq<Seq<char>>) -> Seq<Seq<Seq<char>>> {
    let (done, open) = split_blocks(ls);
    if open.len() > 0 {
        done.push(open)
    } else {
        done
    }
}

/// The cards that a list of blocks describes, skipping blocks without a name.
pub open spec fn cards_of_blocks(bs: Seq<Seq<Seq<char>>>) -> Seq<CardView>
    decreases bs.len(),
{
    if bs.len() == 0 {
        seq![]
    } else {
        match parse_block(bs.last()) {
            Some(c) => cards_of_blocks(bs.drop_last()).push(c),
            None => cards_of_blocks(bs.drop_last()),
        }
    }
}

/// The cards of a `pactl list cards` report.
pub open spec fn report_cards(text: Seq<char>) -> Seq<CardView> {
    cards_of_blocks(card_blocks(lines(text)))
}

/// The lines that a list of spans of `cs` covers.
pub open spec fn span_lines(cs: Seq<char>, spans: Seq<(usize, usize)>) -> Seq<Seq<char>> {
    Seq::new(spans.len(), |k: int| cs.subrange(spans[k].0 as int, spans[k].1 as int))
}

/// Spans that lie within `cs`.
pub open spec fn spans_ok(cs: Seq<char>, spans: Seq<(usize, usize)>) -> bool {
    forall|k: int| 0 <= k < spans.len() ==> (#[trigger] spans[k]).0 <= spans[k].1 <= cs.len()
}

/// The card of the block made of the lines `spans` of `cs`.
fn parse_card_block(cs: &Vec<char>, spans: &Vec<(usize, usize)>, pats: &CardPatterns) -> (r: Option<Card>)
    requires
        pats.wf(),
        spans_ok(cs@, spans@),
    ensures
        match r {
            Some(c) => parse_block(span_lines(cs@, spans@)) == Some(c@),
            None => parse_block(span_lines(cs@, spans@)) is None,
        },
{
    let ghost ls = span_lines(cs@, spans@);
    let mut name: Option<(usize, usize)> = None;
    let mut active: Option<(usize, usize)> = None;
    let mut label: Option<(usize, usize)> = None;
    let mut has_hdmi = false;
    let mut profiles: Vec<Profile> = Vec::new();
    let mut i: usize = 0;
    while i < spans.len()
        invariant
            pats.wf(),
            spans_ok(cs@, spans@),
            ls == span_lines(cs@, spans@),
            i <= spans.len(),
            match name {
                Some((a, b)) => a <= b <= cs.len() && last_capture(
                    ls.take(i as int),
                    |l: Seq<char>| name_capture(l),
                ) == Some(cs@.subrange(a as int, b as int)),
                None => last_capture(ls.take(i as int), |l: Seq<char>| name_capture(l)) is None,
            },
            match active {
                Some((a, b)) => a <= b <= cs.len() && last_capture(
                    ls.take(i as int),
                    |l: Seq<char>| active_capture(l),
                ) == Some(cs@.subrange(a as int, b as int)),
                None => last_capture(ls.take(i as int), |l: Seq<char>| active_capture(l)) is None,
            },
            match label {
                Some((a, b)) => a <= b <= cs.len() && last_capture(
                    ls.take(i as int),
                    |l: Seq<char>| label_capture(l),
                ) == Some(cs@.subrange(a as int, b as int)),
                None => last_capture(ls.take(i as int), |l: Seq<char>| label_capture(l)) is None,
            },
            has_hdmi == block_has_hdmi(ls.take(i as int)),
            profiles_view(profiles@) == block_profiles(ls.take(i as int)),
        decreases spans.len() - i,
    {
        let (lo, hi) = spans[i];
        let ghost prev = ls.take(i as int);
        let ghost cur = ls.take(i + 1);
        assert(cur.drop_last() =~= prev);
        assert(cur.last() == cs@.subrange(lo as int, hi as int));
        match match_name(cs, lo, hi, pats) {
            Some(sp) => {
                name = Some(sp);
            },
            None => {},
        }
        match match_active(cs, lo, hi, pats) {
            Some(sp) => {
                active = Some(sp);
            },
            None => {},
        }
        match match_label(cs, lo, hi, pats) {
            Some(sp) => {
                label = Some(sp);
            },
            None => {},
        }
        let h = match_hdmi(cs, lo, hi, pats);
        proof {
            if h {
                assert(hdmi_line(cur[i as int]));
            }
            if has_hdmi {
                let w = choose|w: int| 0 <= w < prev.len() && hdmi_line(#[trigger] prev[w]);
                assert(cur[w] == prev[w]);
            }
            if block_has_hdmi(cur) {
                let w = choose|w: int| 0 <= w < cur.len() && hdmi_line(#[trigger] cur[w]);
                if w < i {
                    assert(prev[w] == cur[w]);
                }
            }
        }
        has_hdmi = has_hdmi || h;
        match match_profile(cs, lo, hi, pats) {
            Some((a, b, c, d, y)) => {
                let available = if y {
                    "yes".to_owned()
                } else {
                    "no".to_owned()
                };
                let p = Profile {
                    available,
                    name: string_of(cs, a, b),
                    priority: read_priority(cs, c, d),
                };
                profiles.push(p);
                assert(profiles_view(profiles@) =~= block_profiles(cur));
            },
            None => {},
        }
        i += 1;
    }
    assert(ls.take(i as int) =~= ls);
    match name {
        None => None,
        Some((a, b)) => {
            let active_profile = match active {
                Some((x, y)) => Some(string_of(cs, x, y)),
                None => None,
            };
            let label = match label {
                Some((x, y)) => Some(string_of(cs, x, y)),
                None => None,
            };
            Some(
                Card {
                    active_profile,
                    has_hdmi,
                    label,
                    name: string_of(cs, a, b),
                    profiles,
                },
            )
        },
    }
}

/// Parses the output of `pactl list cards`.
///
/// The report is read line by line; every line that begins with `Card #`
/// closes the block of lines before it, and each non-empty block that has a
/// name line becomes one card.
pub fn parse_cards(text: &str) -> (cards: Vec<Card>)
    ensures
        cards_view(cards@) == report_cards(text@),
{
    let pats = CardPatterns::new();
    let cs = chars_of(text);
    let spans = line_spans(&cs);
    let ghost ls = lines(cs@);
    let mut cards: Vec<Card> = Vec::new();
    let mut block: Vec<(usize, usize)> = Vec::new();
    let ghost mut done: Seq<Seq<Seq<char>>> = seq![];
    let mut i: usize = 0;
    while i < spans.len()
        invariant
            pats.wf(),
            cs@ == text@,
            ls == lines(cs@),
            spans.len() == ls.len(),
            forall|k: int|
                0 <= k < spans.len() ==> {
                    &&& (#[trigger] spans@[k]).0 <= spans@[k].1 <= cs.len()
                    &&& cs@.subrange(spans@[k].0 as int, spans@[k].1 as int) == ls[k]
                },
            i <= spans.len(),
            spans_ok(cs@, block@),
            split_blocks(ls.take(i as int)) == (done, span_lines(cs@, block@)),
            cards_view(cards@) == cards_of_blocks(done),
        decreases spans.len() - i,
    {
        let (lo, hi) = spans[i];
        let ghost prev = ls.take(i as int);
        let ghost cur = ls.take(i + 1);
        assert(cur.drop_last() =~= prev);
        assert(cur.last() == cs@.subrange(lo as int, hi as int));
        if starts_with_exec(&cs, lo, hi, &pats.header) {
            if block.len() > 0 {
                let c = parse_card_block(&cs, &block, &pats);
                let ghost old_done = done;
                let ghost old_cards = cards@;
                proof {
                    done = done.push(span_lines(cs@, block@));
                    assert(done.drop_last() =~= old_done);
                }
                match c {
                    Some(c) => {
                        cards.push(c);
                        assert(cards@ == old_cards.push(c));
                        assert(cards_view(cards@) =~= cards_view(old_cards).push(c@));
                    },
                    None => {},
                }
                block = Vec::new();
            }
            assert(span_lines(cs@, block@) =~= seq![]);
        } else {
            let ghost old_block = block@;
            block.push((lo, hi));
            assert(span_lines(cs@, block@) =~= span_lines(cs@, old_block).push(
                cs@.subrange(lo as int, hi as int),
            ));
        }
        i += 1;
    }
    assert(ls.take(i as int) =~= ls);
    if block.len() > 0 {
        let c = parse_card_block(&cs, &block, &pats);
        let ghost old_done = done;
        let ghost old_cards = cards@;
        proof {
            done = done.push(span_lines(cs@, block@));
            assert(done.drop_last() =~= old_done);
        }
        match c {
            Some(c) => {
                cards.push(c);
                assert(cards@ == old_cards.push(c));
                assert(cards_view(cards@) =~= cards_view(old_cards).push(c@));
            },
            None => {},
        }
        assert(card_blocks(ls) == done);
    } else {
        assert(span_lines(cs@, block@).len() == 0);
    }
    cards
}

// ---------------------------------------------------------------------------
// Profiles
// ---------------------------------------------------------------------------
/// `r` lists the profiles in order of descending priority.
pub open spec fn priority_descending(r: Seq<ProfileView>) -> bool {
    forall|i: int, j: int| 0 <= i < j < r.len() ==> r[i].priority >= r[j].priority
}

/// `r` is `ps` reordered by `perm` (`r[k] == ps[perm[k]]`), a permutation
/// that keeps profiles of equal priority in their original order.
pub open spec fn stable_reordering(ps: Seq<ProfileView>, r: Seq<ProfileView>, perm: Seq<int>) -> bool {
    &&& perm.len() == ps.len()
    &&& r.len() == ps.len()
    &&& forall|k: int| 0 <= k < perm.len() ==> 0 <= #[trigger] perm[k] < ps.len()
    &&& forall|k: int, m: int| 0 <= k < m < perm.len() ==> perm[k] != perm[m]
    &&& forall|k: int| 0 <= k < r.len() ==> #[trigger] r[k] == ps[perm[k]]
    &&& forall|k: int, m: int|
        0 <= k < m < r.len() && r[k].priority == r[m].priority ==> perm[k] < perm[m]
}

/// `r` is the stable sort of `ps` by descending priority.
pub open spec fn stably_sorted(ps: Seq<ProfileView>, r: Seq<ProfileView>) -> bool {
    &&& priority_descending(r)
    &&& exists|perm: Seq<int>| stable_reordering(ps, r, perm)
}

/// The first position of `r` whose priority is below `p`, or its length.
fn insertion_point(r: &Vec<Profile>, p: u32) -> (pos: usize)
    requires
        priority_descending(profiles_view(r@)),
    ensures
        pos <= r.len(),
        forall|k: int| 0 <= k < pos ==> r@[k].priority >= p,
        forall|k: int| pos <= k < r.len() ==> r@[k].priority < p,
{
    let mut pos: usize = 0;
    while pos < r.len() && r[pos].priority >= p
        invariant
            pos <= r.len(),
            priority_descending(profiles_view(r@)),
            forall|k: int| 0 <= k < pos ==> r@[k].priority >= p,
        decreases r.len() - pos,
    {
        pos += 1;
    }
    proof {
        assert forall|k: int| pos <= k < r.len() implies r@[k].priority < p by {
            assert(profiles_view(r@)[pos as int].priority >= profiles_view(r@)[k].priority);
        }
    }
    pos
}

impl Card {
    /// The card's profiles, highest priority first; profiles of equal
    /// priority keep the order in which the card lists them.
    pub fn sorted_profiles(&self) -> (r: Vec<Profile>)
        ensures
            stably_sorted(profiles_view(self.profiles@), profiles_view(r@)),
    {
        let ghost ps = profiles_view(self.profiles@);
        let mut r: Vec<Profile> = Vec::new();
        let ghost mut perm: Seq<int> = seq![];
        let mut i: usize = 0;
        while i < self.profiles.len()
            invariant
                i <= self.profiles.len(),
                ps == profiles_view(self.profiles@),
                priority_descending(profiles_view(r@)),
                stable_reordering(ps.take(i as int), profiles_view(r@), perm),
            decreases self.profiles.len() - i,
        {
            let x = self.profiles[i].duplicate();
            let pos = insertion_point(&r, x.priority);
            let ghost old_r = profiles_view(r@);
            let ghost old_perm = perm;
            r.insert(pos, x);
            proof {
                perm = perm.insert(pos as int, i as int);
                let nr = profiles_view(r@);
                assert(nr =~= old_r.insert(pos as int, x@));
                let pt = ps.take(i + 1);
                assert forall|k: int| 0 <= k < nr.len() implies #[trigger] nr[k] == pt[perm[k]] by {
                    if k < pos {
                        assert(nr[k] == old_r[k]);
                        assert(perm[k] == old_perm[k]);
                    } else if k > pos {
                        assert(nr[k] == old_r[k - 1]);
                        assert(perm[k] == old_perm[k - 1]);
                    }
                }
                assert forall|k: int| 0 <= k < perm.len() implies 0 <= #[trigger] perm[k] < pt.len() by {
                    if k < pos {
                        assert(perm[k] == old_perm[k]);
                    } else if k > pos {
                        assert(perm[k] == old_perm[k - 1]);
                    }
                }
                assert forall|k: int, m: int| 0 <= k < m < perm.len() implies perm[k] != perm[m] by {
                    if k < pos && m < pos {
                        assert(perm[k] == old_perm[k] && perm[m] == old_perm[m]);
                    } else if k < pos && m == pos {
                        assert(perm[k] == old_perm[k]);
                    } else if k < pos && m > pos {
                        assert(perm[k] == old_perm[k] && perm[m] == old_perm[m - 1]);
                    } else if k == pos {
                        assert(perm[m] == old_perm[m - 1]);
                    } else {
                        assert(perm[k] == old_perm[k - 1] && perm[m] == old_perm[m - 1]);
                    }
                }
                assert forall|k: int, m: int|
                    0 <= k < m < nr.len() && nr[k].priority == nr[m].priority implies perm[k]
                    < perm[m] by {
                    if k < pos && m < pos {
                        assert(perm[k] == old_perm[k] && perm[m] == old_perm[m]);
                        assert(nr[k] == old_r[k] && nr[m] == old_r[m]);
                    } else if k < pos && m == pos {
                        assert(perm[k] == old_perm[k]);
                    } else if k < pos && m > pos {
                        assert(perm[k] == old_perm[k] && perm[m] == old_perm[m - 1]);
                        assert(nr[k] == old_r[k] && nr[m] == old_r[m - 1]);
                    } else if k == pos {
                        assert(nr[m] == old_r[m - 1]);
                        assert(old_r[m - 1].priority < x.priority);
                    } else {
                        assert(perm[k] == old_perm[k - 1] && perm[m] == old_perm[m - 1]);
                        assert(nr[k] == old_r[k - 1] && nr[m] == old_r[m - 1]);
                    }
                }
                assert forall|k: int, m: int| 0 <= k < m < nr.len() implies nr[k].priority
                    >= nr[m].priority by {
                    if k < pos && m < pos {
                        assert(nr[k] == old_r[k] && nr[m] == old_r[m]);
                    } else if k < pos && m == pos {
                        assert(nr[k] == old_r[k]);
                    } else if k < pos && m > pos {
                        assert(nr[k] == old_r[k] && nr[m] == old_r[m - 1]);
                    } else if k == pos {
                        assert(nr[m] == old_r[m - 1]);
                    } else {
                        assert(nr[k] == old_r[k - 1] && nr[m] == old_r[m - 1]);
                    }
                }
            }
            i += 1;
        }
        assert(ps.take(i as int) =~= ps);
        r
    }
}

/// A profile that can be restored: available, and not `off`.
pub open spec fn restorable(p: ProfileView) -> bool {
    p.available == "yes"@ && p.name != "off"@
}

/// `i` is the restorable profile of highest priority, the last one listed
/// among those of equal priority.
pub open spec fn is_best(ps: Seq<ProfileView>, i: int) -> bool {
    &&& 0 <= i < ps.len()
    &&& restorable(ps[i])
    &&& forall|j: int| 0 <= j < ps.len() && restorable(ps[j]) ==> ps[j].priority <= ps[i].priority
    &&& forall|j: int| i < j < ps.len() && restorable(ps[j]) ==> ps[j].priority < ps[i].priority
}

/// The name of the best restorable profile, if the card has any.
pub open spec fn best_profile(ps: Seq<ProfileView>) -> Option<Seq<char>> {
    if exists|i: int| is_best(ps, i) {
        Some(ps[choose|i: int| is_best(ps, i)].name)
    } else {
        None
    }
}

/// A profile that can be restored: available, and not `off`.
fn is_restorable(p: &Profile) -> (r: bool)
    ensures
        r == restorable(p@),
{
    str_eq(p.available.as_str(), "yes") && !str_eq(p.name.as_str(), "off")
}

impl Card {
    /// The name of the available profile, other than `off`, with the highest
    /// priority; among profiles of equal priority the one listed last.
    pub fn best_available_profile(&self) -> (r: Option<String>)
        ensures
            opt_view(r) == best_profile(profiles_view(self.profiles@)),
    {
        let ghost ps = profiles_view(self.profiles@);
        let mut best: Option<usize> = None;
        let mut k: usize = 0;
        while k < self.profiles.len()
            invariant
                k <= self.profiles.len(),
                ps == profiles_view(self.profiles@),
                match best {
                    Some(b) => {
                        &&& b < k
                        &&& restorable(ps[b as int])
                        &&& forall|j: int|
                            0 <= j < k && restorable(ps[j]) ==> ps[j].priority <= ps[b as int].priority
                        &&& forall|j: int|
                            b < j < k && restorable(ps[j]) ==> ps[j].priority < ps[b as int].priority
                    },
                    None => forall|j: int| 0 <= j < k ==> !restorable(#[trigger] ps[j]),
                },
            decreases self.profiles.len() - k,
        {
            assert(ps[k as int] == self.profiles@[k as int]@);
            if is_restorable(&self.profiles[k]) {
                match best {
                    Some(b) => {
                        assert(ps[b as int] == self.profiles@[b as int]@);
                        if self.profiles[k].priority >= self.profiles[b].priority {
                            best = Some(k);
                        }
                    },
                    None => {
                        best = Some(k);
                    },
                }
            }
            k += 1;
        }
        match best {
            Some(b) => {
                proof {
                    assert(is_best(ps, b as int));
                    let c = choose|i: int| is_best(ps, i);
                    if c < b {
                        assert(ps[b as int].priority < ps[c].priority);
                    } else if c > b {
                        assert(ps[c].priority < ps[b as int].priority);
                    }
                    assert(c == b);
                }
                Some(self.profiles[b].name.clone())
            },
            None => None,
        }
    }
}

// ---------------------------------------------------------------------------
// Choosing a card and a profile
// ---------------------------------------------------------------------------
/// Why no card or profile could be chosen.
#[derive(Debug, Clone, PartialEq, Eq)]
pub enum PactlError {
    /// No card of the given name.
    CardNotFound(String),
    /// No card has an HDMI port.
    NoHdmiCard,
    /// The card has no restorable profile.
    NoAvailableProfile,
    /// The card reports no active profile.
    NoActiveProfile,
}

/// The value of a choice error.
pub enum PactlErrorView {
    CardNotFound(Seq<char>),
    NoHdmiCard,
    NoAvailableProfile,
    NoActiveProfile,
}

impl View for PactlError {
    type V = PactlErrorView;

    open spec fn view(&self) -> PactlErrorView {
        match self {
            PactlError::CardNotFound(n) => PactlErrorView::CardNotFound(n@),
            PactlError::NoHdmiCard => PactlErrorView::NoHdmiCard,
            PactlError::NoAvailableProfile => PactlErrorView::NoAvailableProfile,
            PactlError::NoActiveProfile => PactlErrorView::NoActiveProfile,
        }
    }
}

/// The text of each choice error.
pub open spec fn pactl_error_text(e: PactlErrorView) -> Seq<char> {
    match e {
        PactlErrorView::CardNotFound(n) => "Card '"@ + n + "' not found"@,
        PactlErrorView::NoHdmiCard => "No HDMI audio card detected. Use --card to specify one manually."@,
        PactlErrorView::NoAvailableProfile => "card has no available profiles; use --profile to specify one"@,
        PactlErrorView::NoActiveProfile => "could not determine active profile; skipping cycle"@,
    }
}

impl PactlError {
    /// The error's message.
    pub fn message(&self) -> (s: String)
        ensures
            s@ == pactl_error_text(self@),
    {
        match self {
            PactlError::CardNotFound(n) => {
                let mut s = "Card '".to_owned();
                append_str(&mut s, n.as_str());
                append_str(&mut s, "' not found");
                s
            },
            PactlError::NoHdmiCard => {
                "No HDMI audio card detected. Use --card to specify one manually.".to_owned()
            },
            PactlError::NoAvailableProfile => {
                "card has no available profiles; use --profile to specify one".to_owned()
            },
            PactlError::NoActiveProfile => {
                "could not determine active profile; skipping cycle".to_owned()
            },
        }
    }
}

/// `i` is the first card named `name`.
pub open spec fn first_named(cards: Seq<CardView>, name: Seq<char>, i: int) -> bool {
    &&& 0 <= i < cards.len()
    &&& cards[i].name == name
    &&& forall|j: int| 0 <= j < i ==> cards[j].name != name
}

/// `i` is the first card with an HDMI port.
pub open spec fn first_hdmi(cards: Seq<CardView>, i: int) -> bool {
    &&& 0 <= i < cards.len()
    &&& cards[i].has_hdmi
    &&& forall|j: int| 0 <= j < i ==> !cards[j].has_hdmi
}

/// The first card named `name`.
pub fn find_card(cards: &Vec<Card>, name: &str) -> (r: Option<Card>)
    ensures
        match r {
            Some(c) => exists|i: int| first_named(cards_view(cards@), name@, i) && c@ == cards@[i]@,
            None => forall|j: int| 0 <= j < cards.len() ==> cards@[j].name@ != name@,
        },
{
    let mut i: usize = 0;
    while i < cards.len()
        invariant
            i <= cards.len(),
            forall|j: int| 0 <= j < i ==> cards@[j].name@ != name@,
        decreases cards.len() - i,
    {
        if str_eq(cards[i].name.as_str(), name) {
            let c = cards[i].duplicate();
            assert(first_named(cards_view(cards@), name@, i as int));
            return Some(c);
        }
        i += 1;
    }
    None
}

/// The first card with an HDMI port.
pub fn find_hdmi_card(cards: &Vec<Card>) -> (r: Option<Card>)
    ensures
        match r {
            Some(c) => exists|i: int| first_hdmi(cards_view(cards@), i) && c@ == cards@[i]@,
            None => forall|j: int| 0 <= j < cards.len() ==> !cards@[j].has_hdmi,
        },
{
    let mut i: usize = 0;
    while i < cards.len()
        invariant
            i <= cards.len(),
            forall|j: int| 0 <= j < i ==> !cards@[j].has_hdmi,
        decreases cards.len() - i,
    {
        if cards[i].has_hdmi {
            let c = cards[i].duplicate();
            assert(first_hdmi(cards_view(cards@), i as int));
            return Some(c);
        }
        i += 1;
    }
    None
}

/// The card to act on: the one named `explicit`, or else the first card
/// with an HDMI port.
pub fn resolve_card(cards: &Vec<Card>, explicit: Option<&str>) -> (r: Result<Card, PactlError>)
    ensures
        match explicit {
            Some(name) => match r {
                Ok(c) => exists|i: int| first_named(cards_view(cards@), name@, i) && c@ == cards@[i]@,
                Err(e) => e@ == PactlErrorView::CardNotFound(name@) && forall|j: int|
                    0 <= j < cards.len() ==> cards@[j].name@ != name@,
            },
            None => match r {
                Ok(c) => exists|i: int| first_hdmi(cards_view(cards@), i) && c@ == cards@[i]@,
                Err(e) => e@ == PactlErrorView::NoHdmiCard && forall|j: int|
                    0 <= j < cards.len() ==> !cards@[j].has_hdmi,
            },
        },
{
    match explicit {
        Some(name) => match find_card(cards, name) {
            Some(c) => Ok(c),
            None => Err(PactlError::CardNotFound(name.to_owned())),
        },
        None => match find_hdmi_card(cards) {
            Some(c) => Ok(c),
            None => Err(PactlError::NoHdmiCard),
        },
    }
}

/// The name of the first card with an HDMI port.
pub fn detect_hdmi_card_name(cards: &Vec<Card>) -> (r: Result<String, PactlError>)
    ensures
        match r {
            Ok(n) => exists|i: int| first_hdmi(cards_view(cards@), i) && n@ == cards@[i].name@,
            Err(e) => e@ == PactlErrorView::NoHdmiCard && forall|j: int|
                0 <= j < cards.len() ==> !cards@[j].has_hdmi,
        },
{
    match find_hdmi_card(cards) {
        Some(c) => Ok(c.name),
        None => Err(PactlError::NoHdmiCard),
    }
}

/// The profile to restore after cycling.
pub open spec fn cycle_profile_choice(card: CardView, explicit: Option<Seq<char>>) -> Result<
    Seq<char>,
    PactlErrorView,
> {
    match explicit {
        Some(p) => Ok(p),
        None => match card.active_profile {
            Some(a) if a != "off"@ => Ok(a),
            _ => match best_profile(card.profiles) {
                Some(b) => Ok(b),
                None => Err(PactlErrorView::NoAvailableProfile),
            },
        },
    }
}

/// The profile to restore after cycling: the explicit one; else the active
/// profile unless it is `off`; else the best available profile.
pub fn resolve_cycle_profile(card: &Card, explicit: Option<&str>) -> (r: Result<String, PactlError>)
    ensures
        match r {
            Ok(p) => cycle_profile_choice(card@, opt_str_view(explicit)) == Ok::<Seq<char>, PactlErrorView>(p@),
            Err(e) => cycle_profile_choice(card@, opt_str_view(explicit)) == Err::<Seq<char>, PactlErrorView>(e@),
        },
{
    match explicit {
        Some(p) => Ok(p.to_owned()),
        None => {
            match &card.active_profile {
                Some(a) => {
                    if !str_eq(a.as_str(), "off") {
                        return Ok(a.clone());
                    }
                },
                None => {},
            }
            match card.best_available_profile() {
                Some(b) => Ok(b),
                None => Err(PactlError::NoAvailableProfile),
            }
        },
    }
}

/// The value of an optional string slice.
pub open spec fn opt_str_view(o: Option<&str>) -> Option<Seq<char>> {
    match o {
        Some(s) => Some(s@),
        None => None,
    }
}

/// How often and how patiently a profile is set before giving up.
pub const SET_PROFILE_ATTEMPTS: usize = 20;

/// Milliseconds between two attempts to set a profile.
pub const SET_PROFILE_RETRY_MS: u64 = 250;

/// Milliseconds between switching a card off and switching it back on.
pub const CYCLE_PAUSE_MS: u64 = 1000;

/// What cycling a card does: the card's profile before the cycle, then the
/// profiles to set in turn.
pub struct CyclePlan {
    pub current: String,
    pub steps: Vec<String>,
}

/// Plans cycling `card` through `off` back to `target`; refused when the
/// card reports no active profile.
pub fn cycle_plan(card: &Card, target: &str) -> (r: Result<CyclePlan, PactlError>)
    ensures
        match r {
            Ok(plan) => card@.active_profile == Some(plan.current@) && plan.steps@.len() == 2
                && plan.steps@[0]@ == "off"@ && plan.steps@[1]@ == target@,
            Err(e) => card@.active_profile is None && e@ == PactlErrorView::NoActiveProfile,
        },
{
    match &card.active_profile {
        None => Err(PactlError::NoActiveProfile),
        Some(current) => {
            let mut steps: Vec<String> = Vec::new();
            steps.push("off".to_owned());
            steps.push(target.to_owned());
            Ok(CyclePlan { current: current.clone(), steps })
        },
    }
}

/// Whether a failed attempt to set a profile is followed by a pause and
/// another attempt: every attempt but the last is.
pub fn retry_after(attempt: usize, attempts: usize) -> (r: bool)
    ensures
        r == (attempt + 1 < attempts),
{
    attempt < attempts && attempts - attempt > 1
}

/// What follows one attempt to set a profile.
#[derive(Debug, Clone, Copy, PartialEq, Eq, Structural)]
pub enum AttemptOutcome {
    /// The profile is set.
    Done,
    /// Pause, then try again.
    RetryAfterPause,
    /// Every attempt failed.
    GiveUp,
}

/// The outcome of attempt number `attempt` (from 0) of `attempts`, given
/// whether it succeeded: done on success, another try after a pause while
/// attempts remain, otherwise give up.
pub fn after_attempt(attempt: usize, attempts: usize, succeeded: bool) -> (r: AttemptOutcome)
    ensures
        r == if succeeded {
            AttemptOutcome::Done
        } else if attempt + 1 < attempts {
            AttemptOutcome::RetryAfterPause
        } else {
            AttemptOutcome::GiveUp
        },
{
    if succeeded {
        AttemptOutcome::Done
    } else if retry_after(attempt, attempts) {
        AttemptOutcome::RetryAfterPause
    } else {
        AttemptOutcome::GiveUp
    }
}

/// Where a cycle stands after one of its steps.
#[derive(Debug, PartialEq, Eq)]
pub enum CycleProgress {
    /// Pause, then set the step at this index.
    Next(usize),
    /// Stop, warning with this text; the next cycle tries again.
    GiveUp(String),
    /// The card is back on its profile; the text says so.
    Restored(String),
}

/// The warning when step `index`, setting `profile`, fails: the first step
/// switches the card off, the others restore it.
pub open spec fn give_up_text(index: int, profile: Seq<char>) -> Seq<char> {
    if index == 0 {
        "Failed to set profile to '"@ + profile + "'. Will retry next cycle."@
    } else {
        "Failed to restore profile to '"@ + profile + "'. Will retry next cycle."@
    }
}

/// The note when the card is back on `profile`.
pub open spec fn restored_text(profile: Seq<char>) -> Seq<char> {
    "Profile restored to "@ + profile + "."@
}

/// What follows step `index` of `plan`, given whether setting its profile
/// succeeded: a failure ends the cycle with a warning; a success moves on to
/// the next step after a pause, or, after the last step, ends the cycle with
/// the card restored.
pub fn after_cycle_step(plan: &CyclePlan, index: usize, succeeded: bool) -> (r: CycleProgress)
    requires
        index < plan.steps.len(),
    ensures
        !succeeded ==> (r matches CycleProgress::GiveUp(m) && m@ == give_up_text(
            index as int,
            plan.steps@[index as int]@,
        )),
        succeeded && index + 1 < plan.steps.len() ==> r == CycleProgress::Next((index + 1) as usize),
        succeeded && index + 1 >= plan.steps.len() ==> (r matches CycleProgress::Restored(m)
            && m@ == restored_text(plan.steps@[index as int]@)),
{
    let step = plan.steps[index].as_str();
    if !succeeded {
        let mut m = if index == 0 {
            "Failed to set profile to '".to_owned()
        } else {
            "Failed to restore profile to '".to_owned()
        };
        append_str(&mut m, step);
        append_str(&mut m, "'. Will retry next cycle.");
        return CycleProgress::GiveUp(m);
    }
    if index + 1 < plan.steps.len() {
        return CycleProgress::Next(index + 1);
    }
    let mut m = "Profile restored to ".to_owned();
    append_str(&mut m, step);
    append_str(&mut m, ".");
    CycleProgress::Restored(m)
}

// ---------------------------------------------------------------------------
// Listings
// ---------------------------------------------------------------------------
/// A listed part, preceded by the two spaces that separate parts.
pub open spec fn part(t: Seq<char>) -> Seq<char> {
    "  "@ + t
}

/// The line that lists a card: its name, then its label in parentheses,
/// its active profile, `hdmi` when it has an HDMI port, and `*` when it is
/// the selected card, the parts separated by two spaces.
pub open spec fn card_line(c: CardView, selected: Option<Seq<char>>) -> Seq<char> {
    c.name + match c.label {
        Some(l) => part("("@ + l + ")"@),
        None => seq![],
    } + match c.active_profile {
        Some(a) => part("profile: "@ + a),
        None => seq![],
    } + if c.has_hdmi {
        part("hdmi"@)
    } else {
        seq![]
    } + if selected == Some(c.name) {
        part("*"@)
    } else {
        seq![]
    }
}

impl Card {
    /// The line that lists the card, `selected` being the name of the card
    /// the daemon would act on.
    pub fn listing(&self, selected: Option<&str>) -> (s: String)
        ensures
            s@ == card_line(self@, opt_str_view(selected)),
    {
        let mut s = self.name.clone();
        match &self.label {
            Some(l) => {
                append_str(&mut s, "  (");
                append_str(&mut s, l.as_str());
                append_str(&mut s, ")");
                proof {
                    reveal_strlit("  (");
                    reveal_strlit("(");
                    reveal_strlit("  ");
                }
            },
            None => {},
        }
        match &self.active_profile {
            Some(a) => {
                append_str(&mut s, "  profile: ");
                append_str(&mut s, a.as_str());
                proof {
                    reveal_strlit("  profile: ");
                    reveal_strlit("profile: ");
                    reveal_strlit("  ");
                }
            },
            None => {},
        }
        if self.has_hdmi {
            append_str(&mut s, "  hdmi");
            proof {
                reveal_strlit("  hdmi");
                reveal_strlit("hdmi");
                reveal_strlit("  ");
            }
        }
        let is_selected = match selected {
            Some(n) => str_eq(n, self.name.as_str()),
            None => false,
        };
        if is_selected {
            append_str(&mut s, "  *");
            proof {
                reveal_strlit("  *");
                reveal_strlit("*");
                reveal_strlit("  ");
            }
        }
        assert(s@ =~= card_line(self@, opt_str_view(selected)));
        s
    }
}

/// The card that a listing of cards marks: the one named on the command
/// line, else the first card with an HDMI port, if any.
pub open spec fn listing_selection(cards: Seq<CardView>, explicit: Option<Seq<char>>) -> Option<
    Seq<char>,
> {
    match explicit {
        Some(n) => Some(n),
        None => if exists|i: int| first_hdmi(cards, i) {
            Some(cards[choose|i: int| first_hdmi(cards, i)].name)
        } else {
            None
        },
    }
}

/// Two first cards with an HDMI port are the same card.
proof fn lemma_first_hdmi_unique(cards: Seq<CardView>, i: int, j: int)
    requires
        first_hdmi(cards, i),
        first_hdmi(cards, j),
    ensures
        i == j,
{
}

/// The lines that list `cards`, in order, marking the card named
/// `explicit`, or else the first card with an HDMI port.
pub fn card_listings(cards: &Vec<Card>, explicit: Option<&str>) -> (lines: Vec<String>)
    ensures
        lines.len() == cards.len(),
        forall|i: int|
            0 <= i < cards.len() ==> #[trigger] lines@[i]@ == card_line(
                cards@[i]@,
                listing_selection(cards_view(cards@), opt_str_view(explicit)),
            ),
{
    let ghost sel = listing_selection(cards_view(cards@), opt_str_view(explicit));
    let selected: Option<String> = match explicit {
        Some(n) => Some(n.to_owned()),
        None => match detect_hdmi_card_name(cards) {
            Ok(n) => {
                proof {
                    let i = choose|i: int| first_hdmi(cards_view(cards@), i) && n@ == cards@[i].name@;
                    let c = choose|i: int| first_hdmi(cards_view(cards@), i);
                    lemma_first_hdmi_unique(cards_view(cards@), i, c);
                }
                Some(n)
            },
            Err(_) => {
                proof {
                    if exists|i: int| first_hdmi(cards_view(cards@), i) {
                        let c = choose|i: int| first_hdmi(cards_view(cards@), i);
                        assert(cards_view(cards@)[c].has_hdmi);
                        assert(cards@[c].has_hdmi);
                    }
                }
                None
            },
        },
    };
    let chosen: Option<&str> = match &selected {
        Some(s) => Some(s.as_str()),
        None => None,
    };
    assert(opt_str_view(chosen) == sel);
    let mut lines: Vec<String> = Vec::new();
    let mut k: usize = 0;
    while k < cards.len()
        invariant
            k <= cards.len(),
            lines.len() == k,
            opt_str_view(chosen) == sel,
            sel == listing_selection(cards_view(cards@), opt_str_view(explicit)),
            forall|i: int| 0 <= i < k ==> #[trigger] lines@[i]@ == card_line(cards@[i]@, sel),
        decreases cards.len() - k,
    {
        lines.push(cards[k].listing(chosen));
        k += 1;
    }
    lines
}

/// The line that lists a profile: name, priority and availability, and `*`
/// when it is the card's active profile.
pub open spec fn profile_line(p: ProfileView, active: Option<Seq<char>>) -> Seq<char> {
    p.name + "  (priority: "@ + decimal(p.priority as nat) + ", available: "@ + p.available + ")"@
        + if active == Some(p.name) {
        " *"@
    } else {
        seq![]
    }
}

impl Profile {
    /// The line that lists the profile of a card whose active profile is
    /// `active`.
    pub fn listing(&self, active: Option<&str>) -> (s: String)
        ensures
            s@ == profile_line(self@, opt_str_view(active)),
    {
        let mut s = self.name.clone();
        append_str(&mut s, "  (priority: ");
        push_decimal(&mut s, self.priority as u64);
        append_str(&mut s, ", available: ");
        append_str(&mut s, self.available.as_str());
        append_str(&mut s, ")");
        let ghost s1 = s@;
        let is_active = match active {
            Some(a) => str_eq(a, self.name.as_str()),
            None => false,
        };
        if is_active {
            append_str(&mut s, " *");
        }
        assert(s@ =~= profile_line(self@, opt_str_view(active)));
        s
    }
}

impl Card {
    /// The lines that list the card's profiles, highest priority first (the
    /// order of `sorted_profiles`), marking the active one.
    pub fn profile_listings(&self) -> (lines: Vec<String>)
        ensures
            exists|r: Seq<ProfileView>|
                {
                    &&& stably_sorted(profiles_view(self.profiles@), r)
                    &&& lines.len() == r.len()
                    &&& forall|i: int|
                        0 <= i < r.len() ==> #[trigger] lines@[i]@ == profile_line(
                            r[i],
                            self@.active_profile,
                        )
                },
    {
        let sorted = self.sorted_profiles();
        let active: Option<&str> = match &self.active_profile {
            Some(a) => Some(a.as_str()),
            None => None,
        };
        assert(opt_str_view(active) == self@.active_profile);
        let mut lines: Vec<String> = Vec::new();
        let mut k: usize = 0;
        while k < sorted.len()
            invariant
                k <= sorted.len(),
                lines.len() == k,
                opt_str_view(active) == self@.active_profile,
                forall|i: int|
                    0 <= i < k ==> #[trigger] lines@[i]@ == profile_line(
                        profiles_view(sorted@)[i],
                        self@.active_profile,
                    ),
            decreases sorted.len() - k,
        {
            lines.push(sorted[k].listing(active));
            k += 1;
        }
        lines
    }
}

// ---------------------------------------------------------------------------
// Laws of the card report and of the profile choice
// ---------------------------------------------------------------------------
/// `last_capture` gives the capture of the last line on which `f` captures
/// something, and nothing when no line has one.
proof fn lemma_last_capture(ls: Seq<Seq<char>>, f: spec_fn(Seq<char>) -> Option<Seq<char>>)
    ensures
        last_capture(ls, f) is None <==> forall|i: int| 0 <= i < ls.len() ==> f(#[trigger] ls[i]) is None,
        last_capture(ls, f) matches Some(x) ==> exists|i: int|
            0 <= i < ls.len() && f(#[trigger] ls[i]) == Some(x) && forall|j: int|
                i < j < ls.len() ==> f(#[trigger] ls[j]) is None,
    decreases ls.len(),
{
    if ls.len() > 0 {
        let p = ls.drop_last();
        let n = ls.len() - 1;
        lemma_last_capture(p, f);
        assert(ls[n] == ls.last());
        match f(ls.last()) {
            Some(x) => {},
            None => {
                assert forall|i: int| 0 <= i < p.len() implies p[i] == ls[i] by {}
                if last_capture(p, f) is None {
                    assert forall|i: int| 0 <= i < ls.len() implies f(#[trigger] ls[i]) is None by {
                        if i < n {
                            assert(f(p[i]) is None);
                        }
                    }
                } else {
                    let x = last_capture(p, f)->0;
                    let i = choose|i: int|
                        0 <= i < p.len() && f(#[trigger] p[i]) == Some(x) && forall|j: int|
                            i < j < p.len() ==> f(#[trigger] p[j]) is None;
                    assert(f(ls[i]) == Some(x));
                    assert forall|j: int| i < j < ls.len() implies f(#[trigger] ls[j]) is None by {
                        if j < n {
                            assert(f(p[j]) is None);
                        }
                    }
                    let k = choose|k: int| 0 <= k < p.len() && !(f(#[trigger] p[k]) is None);
                    assert(!(f(ls[k]) is None));
                }
            },
        }
    }
}

/// Every profile line of a block gives a profile of its card, and every
/// profile of the card comes from a profile line.
proof fn lemma_block_profiles(ls: Seq<Seq<char>>)
    ensures
        forall|i: int|
            0 <= i < ls.len() && (#[trigger] profile_capture(ls[i])) is Some ==> block_profiles(
                ls,
            ).contains(profile_of(profile_capture(ls[i])->0)),
        forall|k: int|
            0 <= k < block_profiles(ls).len() ==> exists|i: int|
                0 <= i < ls.len() && (#[trigger] profile_capture(ls[i])) is Some && profile_of(
                    profile_capture(ls[i])->0,
                ) == #[trigger] block_profiles(ls)[k],
    decreases ls.len(),
{
    if ls.len() > 0 {
        let p = ls.drop_last();
        let n = ls.len() - 1;
        lemma_block_profiles(p);
        let bp = block_profiles(p);
        let b = block_profiles(ls);
        assert(ls[n] == ls.last());
        assert forall|i: int|
            0 <= i < ls.len() && (#[trigger] profile_capture(ls[i])) is Some implies b.contains(
            profile_of(profile_capture(ls[i])->0),
        ) by {
            if i < n {
                assert(p[i] == ls[i]);
                let k = choose|k: int| 0 <= k < bp.len() && bp[k] == profile_of(profile_capture(p[i])->0);
                assert(b[k] == bp[k]);
            } else {
                assert(b[b.len() - 1] == profile_of(profile_capture(ls[i])->0));
            }
        }
        assert forall|k: int| 0 <= k < block_profiles(ls).len() implies exists|i: int|
            0 <= i < ls.len() && (#[trigger] profile_capture(ls[i])) is Some && profile_of(
                profile_capture(ls[i])->0,
            ) == #[trigger] block_profiles(ls)[k] by {
            if k < bp.len() {
                assert(b[k] == bp[k]);
                let i = choose|i: int|
                    0 <= i < p.len() && (#[trigger] profile_capture(p[i])) is Some && profile_of(
                        profile_capture(p[i])->0,
                    ) == bp[k];
                assert(p[i] == ls[i]);
            } else {
                assert(profile_capture(ls.last()) is Some);
                assert(b[k] == profile_of(profile_capture(ls[n])->0));
                assert(profile_capture(ls[n]) is Some);
            }
        }
    } else {
        assert(block_profiles(ls).len() == 0);
    }
}

/// What a block of report lines says of its card: there is a card exactly
/// when some line names it, and then its name, active profile and label
/// are those of the last line that gives each; it has an HDMI port exactly
/// when some line, wherever it stands, contains `port.type = "hdmi"`; and
/// its profiles are exactly those of its profile lines.
pub proof fn law_card_of_block(ls: Seq<Seq<char>>)
    ensures
        parse_block(ls) is Some <==> exists|i: int|
            0 <= i < ls.len() && (#[trigger] name_capture(ls[i])) is Some,
        parse_block(ls) matches Some(c) ==> {
            &&& c.has_hdmi <==> exists|i: int|
                0 <= i < ls.len() && contains(#[trigger] ls[i], "port.type = \"hdmi\""@)
            &&& exists|i: int|
                0 <= i < ls.len() && name_capture(#[trigger] ls[i]) == Some(c.name) && forall|j: int|
                    i < j < ls.len() ==> (#[trigger] name_capture(ls[j])) is None
            &&& (c.active_profile is None <==> forall|i: int|
                0 <= i < ls.len() ==> (#[trigger] active_capture(ls[i])) is None)
            &&& (c.active_profile matches Some(a) ==> exists|i: int|
                0 <= i < ls.len() && active_capture(#[trigger] ls[i]) == Some(a) && forall|j: int|
                    i < j < ls.len() ==> (#[trigger] active_capture(ls[j])) is None)
            &&& (c.label is None <==> forall|i: int|
                0 <= i < ls.len() ==> (#[trigger] label_capture(ls[i])) is None)
            &&& (c.label matches Some(l) ==> exists|i: int|
                0 <= i < ls.len() && label_capture(#[trigger] ls[i]) == Some(l) && forall|j: int|
                    i < j < ls.len() ==> (#[trigger] label_capture(ls[j])) is None)
            &&& forall|i: int|
                0 <= i < ls.len() && (#[trigger] profile_capture(ls[i])) is Some
                    ==> c.profiles.contains(profile_of(profile_capture(ls[i])->0))
            &&& forall|q: ProfileView|
                #[trigger] c.profiles.contains(q) ==> exists|i: int|
                    0 <= i < ls.len() && (#[trigger] profile_capture(ls[i])) is Some && profile_of(
                        profile_capture(ls[i])->0,
                    ) == q
        },
{
    let fname = |l: Seq<char>| name_capture(l);
    let fact = |l: Seq<char>| active_capture(l);
    let flab = |l: Seq<char>| label_capture(l);
    lemma_last_capture(ls, fname);
    lemma_last_capture(ls, fact);
    lemma_last_capture(ls, flab);
    lemma_block_profiles(ls);
    assert forall|i: int| 0 <= i < ls.len() implies fname(ls[i]) == name_capture(ls[i]) by {}
    assert forall|i: int| 0 <= i < ls.len() implies fact(ls[i]) == active_capture(ls[i]) by {}
    assert forall|i: int| 0 <= i < ls.len() implies flab(ls[i]) == label_capture(ls[i]) by {}
    if parse_block(ls) is Some {
        let c = parse_block(ls)->0;
        assert(c.profiles == block_profiles(ls));
        assert forall|q: ProfileView| #[trigger] c.profiles.contains(q) implies exists|i: int|
            0 <= i < ls.len() && (#[trigger] profile_capture(ls[i])) is Some && profile_of(
                profile_capture(ls[i])->0,
            ) == q by {
            let k = choose|k: int| 0 <= k < c.profiles.len() && c.profiles[k] == q;
            assert(block_profiles(ls)[k] == q);
        }
    }
}

/// A card with a restorable profile has a best one.
proof fn lemma_best_exists(ps: Seq<ProfileView>)
    requires
        exists|j: int| 0 <= j < ps.len() && restorable(#[trigger] ps[j]),
    ensures
        exists|i: int| is_best(ps, i),
    decreases ps.len(),
{
    let n = ps.len() - 1;
    let p = ps.drop_last();
    if exists|j: int| 0 <= j < p.len() && restorable(#[trigger] p[j]) {
        lemma_best_exists(p);
        let b = choose|i: int| is_best(p, i);
        assert(ps[b] == p[b]);
        if restorable(ps[n]) && ps[n].priority >= ps[b].priority {
            assert forall|j: int| 0 <= j < ps.len() && restorable(ps[j]) implies ps[j].priority
                <= ps[n].priority by {
                if j < n {
                    assert(ps[j] == p[j]);
                }
            }
            assert(is_best(ps, n));
        } else {
            assert forall|j: int| 0 <= j < ps.len() && restorable(ps[j]) implies ps[j].priority
                <= ps[b].priority by {
                if j < n {
                    assert(ps[j] == p[j]);
                }
            }
            assert forall|j: int| b < j < ps.len() && restorable(ps[j]) implies ps[j].priority
                < ps[b].priority by {
                if j < n {
                    assert(ps[j] == p[j]);
                }
            }
            assert(is_best(ps, b));
        }
    } else {
        let j = choose|j: int| 0 <= j < ps.len() && restorable(#[trigger] ps[j]);
        if j < n {
            assert(p[j] == ps[j]);
        }
        assert(j == n);
        assert forall|k: int| 0 <= k < ps.len() && restorable(ps[k]) implies ps[k].priority
            <= ps[n].priority by {
            if k < n {
                assert(p[k] == ps[k]);
            }
        }
        assert(is_best(ps, n));
    }
}

/// The profile restored after cycling: the one given explicitly; else the
/// card's active profile unless it is `off`; else the available profile,
/// other than `off`, with the highest priority (the last one listed among
/// equals), and an error exactly when the card has no such profile.
pub proof fn law_cycle_profile_choice(card: CardView, explicit: Option<Seq<char>>)
    ensures
        explicit matches Some(p) ==> cycle_profile_choice(card, explicit) == Ok::<
            Seq<char>,
            PactlErrorView,
        >(p),
        explicit is None ==> (card.active_profile matches Some(a) ==> (a != "off"@
            ==> cycle_profile_choice(card, explicit) == Ok::<Seq<char>, PactlErrorView>(a))),
        explicit is None && (card.active_profile is None || card.active_profile == Some("off"@))
            ==> match cycle_profile_choice(card, explicit) {
            Ok(p) => exists|i: int|
                0 <= i < card.profiles.len() && (#[trigger] card.profiles[i]).name == p
                    && card.profiles[i].available == "yes"@ && card.profiles[i].name != "off"@
                    && (forall|j: int|
                    0 <= j < card.profiles.len() && (#[trigger] card.profiles[j]).available
                        == "yes"@ && card.profiles[j].name != "off"@ ==> card.profiles[j].priority
                        <= card.profiles[i].priority) && (forall|j: int|
                    i < j < card.profiles.len() && (#[trigger] card.profiles[j]).available
                        == "yes"@ && card.profiles[j].name != "off"@ ==> card.profiles[j].priority
                        < card.profiles[i].priority),
            Err(e) => e == PactlErrorView::NoAvailableProfile && forall|j: int|
                0 <= j < card.profiles.len() ==> !((#[trigger] card.profiles[j]).available
                    == "yes"@ && card.profiles[j].name != "off"@),
        },
{
    let ps = card.profiles;
    if exists|j: int| 0 <= j < ps.len() && restorable(#[trigger] ps[j]) {
        lemma_best_exists(ps);
        let b = choose|i: int| is_best(ps, i);
        assert(is_best(ps, b));
    } else {
        assert forall|j: int| 0 <= j < ps.len() implies !((#[trigger] ps[j]).available == "yes"@
            && ps[j].name != "off"@) by {
            if ps[j].available == "yes"@ && ps[j].name != "off"@ {
                assert(restorable(ps[j]));
            }
        }
        if exists|i: int| is_best(ps, i) {
            let b = choose|i: int| is_best(ps, i);
            assert(restorable(ps[b]));
        }
    }
}

/// The best available profile of a card is an available profile other than
/// `off` whose priority no other such profile exceeds, and no later one
/// equals; there is none exactly when the card has no such profile.
pub proof fn law_best_available_profile(ps: Seq<ProfileView>)
    ensures
        match best_profile(ps) {
            Some(n) => exists|i: int|
                0 <= i < ps.len() && (#[trigger] ps[i]).name == n && ps[i].available == "yes"@
                    && ps[i].name != "off"@ && (forall|j: int|
                    0 <= j < ps.len() && (#[trigger] ps[j]).available == "yes"@ && ps[j].name
                        != "off"@ ==> ps[j].priority <= ps[i].priority) && (forall|j: int|
                    i < j < ps.len() && (#[trigger] ps[j]).available == "yes"@ && ps[j].name
                        != "off"@ ==> ps[j].priority < ps[i].priority),
            None => forall|j: int|
                0 <= j < ps.len() ==> !((#[trigger] ps[j]).available == "yes"@ && ps[j].name
                    != "off"@),
        },
{
    if exists|j: int| 0 <= j < ps.len() && restorable(#[trigger] ps[j]) {
        lemma_best_exists(ps);
        let b = choose|i: int| is_best(ps, i);
        assert(is_best(ps, b));
    } else {
        assert forall|j: int| 0 <= j < ps.len() implies !((#[trigger] ps[j]).available == "yes"@
            && ps[j].name != "off"@) by {
            if ps[j].available == "yes"@ && ps[j].name != "off"@ {
                assert(restorable(ps[j]));
            }
        }
        if exists|i: int| is_best(ps, i) {
            let b = choose|i: int| is_best(ps, i);
            assert(restorable(ps[b]));
        }
    }
}

/// Lines without a header extend the open block.
proof fn lemma_split_without_header(q: Seq<Seq<char>>, ls: Seq<Seq<char>>)
    requires
        forall|i: int| 0 <= i < ls.len() ==> !is_header(#[trigger] ls[i]),
    ensures
        split_blocks(q + ls) == (split_blocks(q).0, split_blocks(q).1 + ls),
    decreases ls.len(),
{
    if ls.len() == 0 {
        assert(q + ls =~= q);
        assert(split_blocks(q).1 + ls =~= split_blocks(q).1);
    } else {
        let l = ls.drop_last();
        assert forall|i: int| 0 <= i < l.len() implies !is_header(#[trigger] l[i]) by {
            assert(l[i] == ls[i]);
        }
        lemma_split_without_header(q, l);
        assert((q + ls).drop_last() =~= q + l);
        assert((q + ls).last() == ls[ls.len() - 1]);
        assert((split_blocks(q).1 + l).push(ls.last()) =~= split_blocks(q).1 + ls);
    }
}

/// A report grows card by card: after a `Card #` header, lines that are no
/// header form one block, and the report's cards are those before it
/// followed by the card of that block, if it names one.
pub proof fn law_report_appends_card(prefix: Seq<Seq<char>>, header: Seq<char>, ls: Seq<Seq<char>>)
    requires
        starts_with(header, "Card #"@),
        ls.len() > 0,
        forall|i: int| 0 <= i < ls.len() ==> !starts_with(#[trigger] ls[i], "Card #"@),
    ensures
        cards_of_blocks(card_blocks(prefix.push(header) + ls)) == cards_of_blocks(
            card_blocks(prefix),
        ) + match parse_block(ls) {
            Some(c) => seq![c],
            None => Seq::<CardView>::empty(),
        },
{
    let q = prefix.push(header);
    assert forall|i: int| 0 <= i < ls.len() implies !is_header(#[trigger] ls[i]) by {
        assert(!starts_with(ls[i], "Card #"@));
    }
    assert(q.drop_last() =~= prefix);
    assert(split_blocks(q).0 == card_blocks(prefix));
    assert(split_blocks(q).1 == Seq::<Seq<char>>::empty());
    lemma_split_without_header(q, ls);
    assert(Seq::<Seq<char>>::empty() + ls =~= ls);
    let bs = card_blocks(prefix);
    assert(card_blocks(q + ls) == bs.push(ls));
    assert(bs.push(ls).drop_last() =~= bs);
    match parse_block(ls) {
        Some(c) => {
            assert(cards_of_blocks(bs.push(ls)) == cards_of_blocks(bs).push(c));
            assert(cards_of_blocks(bs).push(c) =~= cards_of_blocks(bs) + seq![c]);
        },
        None => {
            assert(cards_of_blocks(bs) + Seq::<CardView>::empty() =~= cards_of_blocks(bs));
        },
    }
}

/// A card's listing line begins with its name, shows `hdmi` when the card
/// has an HDMI port, and differs between the selected card and any other
/// only by a final `  *`; a profile's line begins with its name and differs
/// between the active profile and any other only by a final ` *`.
pub proof fn law_listing_marks(c: CardView, p: ProfileView, other: Option<Seq<char>>)
    ensures
        card_line(c, None).take(c.name.len() as int) == c.name,
        c.has_hdmi ==> contains(card_line(c, None), "  hdmi"@),
        card_line(c, Some(c.name)) == card_line(c, None) + "  *"@,
        other != Some(c.name) ==> card_line(c, other) == card_line(c, None),
        profile_line(p, None).take(p.name.len() as int) == p.name,
        profile_line(p, Some(p.name)) == profile_line(p, None) + " *"@,
        other != Some(p.name) ==> profile_line(p, other) == profile_line(p, None),
{
    reveal_strlit("  hdmi");
    reveal_strlit("hdmi");
    reveal_strlit("  ");
    reveal_strlit("  *");
    reveal_strlit("*");
    let base = card_line(c, None);
    let head = c.name + match c.label {
        Some(l) => part("("@ + l + ")"@),
        None => seq![],
    } + match c.active_profile {
        Some(a) => part("profile: "@ + a),
        None => seq![],
    };
    assert(base.take(c.name.len() as int) =~= c.name);
    if c.has_hdmi {
        assert(base =~= head + "  hdmi"@);
        assert(base.subrange(head.len() as int, head.len() as int + 6) =~= "  hdmi"@);
        assert(crate::text::occurs_at(base, "  hdmi"@, head.len() as int));
    }
    assert(card_line(c, Some(c.name)) =~= base + part("*"@));
    assert(part("*"@) =~= "  *"@);
    assert(card_line(c, Some(c.name)) =~= base + "  *"@);
    assert(profile_line(p, None).take(p.name.len() as int) =~= p.name);
    assert(profile_line(p, None) + seq![] =~= profile_line(p, None));
    assert(card_line(c, None) + seq![] =~= card_line(c, None));
}

} // verus!

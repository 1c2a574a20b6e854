//! The engine: a window of tabs, the sort mode, and the group index, kept
//! in step one operation at a time.
use vstd::prelude::*;
use crate::keys::{SortMode, TabInfo, TabView, KeyView, has_key, key_count, keys_for, tags_distinct, title_of};
use crate::index::{
    Group, Member, Lifecycle, Rel, MemberInv, GroupInv, placed, ids_below, window_view, place_tab,
    unplace_tab, settle, shift_members, shift_fn, with_tab, without_tab, key_set, lemma_placed_moved,
    lemma_placed_ext, lemma_placed_replace, holds, every_member, every_group, moved, moved_group,
};
use crate::search::{Query, TermView, query_holds};

verus! {

/// Every tab of the window is in each group whose key it has, and in no other.
pub open spec fn grouped(mode: SortMode, w: Seq<TabView>) -> Rel {
    |q: int, k: KeyView| 0 <= q < w.len() && has_key(mode, w[q], k)
}

/// How many memberships the window's tabs have under `mode`: the most
/// groups that building the index can make, one id each.
pub open spec fn total_keys(mode: SortMode, w: Seq<TabView>) -> nat
    decreases w.len(),
{
    if w.len() == 0 {
        0
    } else {
        total_keys(mode, w.drop_last()) + key_count(mode, w.last())
    }
}

/// Outside Tag mode every tab has one membership.
pub proof fn lemma_total_keys_untagged(mode: SortMode, w: Seq<TabView>)
    requires
        mode != SortMode::Tag,
    ensures
        total_keys(mode, w) == w.len(),
    decreases w.len(),
{
    if w.len() > 0 {
        lemma_total_keys_untagged(mode, w.drop_last());
    }
}

/// A group's title: the age of its hour in the time modes (it changes as
/// time passes), else fixed by its key.
pub open spec fn title_fits(mode: SortMode, k: KeyView, t: Option<Seq<char>>) -> bool {
    if mode == SortMode::TimeFocused || mode == SortMode::TimeCreated {
        t is Some
    } else {
        t == title_of(mode, k, 0)
    }
}

/// Every group's title fits its key.
pub open spec fn titles_fit(mode: SortMode) -> GroupInv {
    |k: KeyView, t: Option<Seq<char>>, id: u64, st: Lifecycle| title_fits(mode, k, t)
}

/// Titles fit; a group whose key has a group in `gs0` has that group's id;
/// a group whose key has none was made at `now` by a live change.
pub open spec fn titles_and_ids(mode: SortMode, gs0: Seq<Group>, now: u64) -> GroupInv {
    |k: KeyView, t: Option<Seq<char>>, id: u64, st: Lifecycle| title_fits(mode, k, t) && (forall|j: int|
        0 <= j < gs0.len() && #[trigger] gs0[j].key@ == k ==> gs0[j].id == id) && (!crate::index::has_group(gs0, k)
        ==> t == title_of(mode, k, now) && st == Lifecycle::Inserting)
}

/// Groups made by a bulk build at `now`: titled for `now`, shown at once,
/// with ids from `start` on.
pub open spec fn built(mode: SortMode, now: u64, start: u64) -> GroupInv {
    |k: KeyView, t: Option<Seq<char>>, id: u64, st: Lifecycle| t == title_of(mode, k, now) && id >= start
        && st == Lifecycle::Active
}

/// Every group of `gs1` whose key has no group in `gs0` is titled for `now`
/// and newly placed.
pub open spec fn fresh_groups(mode: SortMode, gs0: Seq<Group>, gs1: Seq<Group>, now: u64) -> bool {
    forall|i: int| 0 <= i < gs1.len() && !crate::index::has_group(gs0, (#[trigger] gs1[i]).key@)
        ==> crate::keys::opt_text(gs1[i].title) == title_of(mode, gs1[i].key@, now)
            && gs1[i].state == Lifecycle::Inserting
}

/// Every group is titled for `now` and shown at once.
pub open spec fn all_built(mode: SortMode, gs: Seq<Group>, now: u64) -> bool {
    forall|i: int| 0 <= i < gs.len() ==> crate::keys::opt_text((#[trigger] gs[i]).title)
        == title_of(mode, gs[i].key@, now) && gs[i].state == Lifecycle::Active
}

proof fn lemma_built_fit(mode: SortMode, w: Seq<TabView>, gs: Seq<Group>, rel: Rel, now: u64, start: u64)
    requires
        placed(mode, w, gs, rel, Set::empty()),
        every_group(gs, built(mode, now, start)),
    ensures
        every_group(gs, titles_fit(mode)),
        all_built(mode, gs, now),
        forall|i: int| 0 <= i < gs.len() ==> (#[trigger] gs[i]).id >= start,
{
    assert forall|i: int| 0 <= i < gs.len() implies titles_fit(mode)((#[trigger] gs[i]).key@,
        crate::keys::opt_text(gs[i].title), gs[i].id, gs[i].state) && gs[i].id >= start
        && crate::keys::opt_text(gs[i].title) == title_of(mode, gs[i].key@, now) && gs[i].state == Lifecycle::Active by {
        assert(crate::keys::key_fits(mode, gs[i].key@));
        assert(built(mode, now, start)(gs[i].key@, crate::keys::opt_text(gs[i].title), gs[i].id, gs[i].state));
    }
}

/// Every group of `gs1` whose key had a group in `gs0` is that group: it has
/// its id.
pub open spec fn ids_kept(gs0: Seq<Group>, gs1: Seq<Group>) -> bool {
    forall|i: int, j: int| 0 <= i < gs1.len() && 0 <= j < gs0.len() && gs1[i].key@ == gs0[j].key@
        ==> #[trigger] gs1[i].id == #[trigger] gs0[j].id
}

proof fn lemma_ids_start(mode: SortMode, w: Seq<TabView>, gs0: Seq<Group>, rel: Rel, now: u64)
    requires
        placed(mode, w, gs0, rel, Set::empty()),
        every_group(gs0, titles_fit(mode)),
    ensures
        every_group(gs0, titles_and_ids(mode, gs0, now)),
{
    assert forall|i: int| 0 <= i < gs0.len() implies titles_and_ids(mode, gs0, now)((#[trigger] gs0[i]).key@,
        crate::keys::opt_text(gs0[i].title), gs0[i].id, gs0[i].state) by {
        assert(crate::index::has_group(gs0, gs0[i].key@));
        assert forall|j: int| 0 <= j < gs0.len() && #[trigger] gs0[j].key@ == gs0[i].key@ implies gs0[j].id == gs0[i].id by {
            if j != i {
                crate::index::lemma_keys_distinct(mode, gs0, i, j);
            }
        }
    }
}

proof fn lemma_ids_end(mode: SortMode, gs0: Seq<Group>, gs1: Seq<Group>, now: u64)
    requires
        every_group(gs1, titles_and_ids(mode, gs0, now)),
    ensures
        every_group(gs1, titles_fit(mode)),
        ids_kept(gs0, gs1),
        fresh_groups(mode, gs0, gs1, now),
{
    assert forall|i: int| 0 <= i < gs1.len() && !crate::index::has_group(gs0, (#[trigger] gs1[i]).key@)
        implies crate::keys::opt_text(gs1[i].title) == title_of(mode, gs1[i].key@, now)
            && gs1[i].state == Lifecycle::Inserting by {
        assert(titles_and_ids(mode, gs0, now)(gs1[i].key@, crate::keys::opt_text(gs1[i].title), gs1[i].id, gs1[i].state));
    }
    assert forall|i: int, j: int| 0 <= i < gs1.len() && 0 <= j < gs0.len() && gs1[i].key@ == gs0[j].key@
        implies #[trigger] gs1[i].id == #[trigger] gs0[j].id by {
        assert(titles_and_ids(mode, gs0, now)(gs1[i].key@, crate::keys::opt_text(gs1[i].title), gs1[i].id, gs1[i].state));
    }
}

/// Every member's state is `state`.
pub open spec fn all_in_state(gs: Seq<Group>, state: Lifecycle) -> bool {
    forall|i: int, j: int| 0 <= i < gs.len() && 0 <= j < gs[i].members@.len()
        ==> (#[trigger] gs[i].members@[j]).state == state
}

/// Every member at window position `p` is newly placed.
pub open spec fn placed_live(gs: Seq<Group>, p: int) -> bool {
    forall|i: int, j: int| 0 <= i < gs.len() && 0 <= j < gs[i].members@.len() && gs[i].members@[j].pos == p
        ==> (#[trigger] gs[i].members@[j]).state == Lifecycle::Inserting
}

/// A current search flag, and a member at `p` newly placed.
pub open spec fn current_and_live(q: Seq<TermView>, w: Seq<TabView>, p: int) -> MemberInv {
    |m: Member| flag_current(q, w)(m) && (m.pos == p ==> m.state == Lifecycle::Inserting)
}

proof fn lemma_live_split(q: Seq<TermView>, w: Seq<TabView>, gs: Seq<Group>, p: int)
    requires
        every_member(gs, current_and_live(q, w, p)),
    ensures
        every_member(gs, flag_current(q, w)),
        placed_live(gs, p),
{
    assert forall|i: int, j: int| 0 <= i < gs.len() && 0 <= j < gs[i].members@.len()
        implies flag_current(q, w)(#[trigger] gs[i].members@[j]) by {
        assert(current_and_live(q, w, p)(gs[i].members@[j]));
    }
    assert forall|i: int, j: int| 0 <= i < gs.len() && 0 <= j < gs[i].members@.len() && gs[i].members@[j].pos == p
        implies (#[trigger] gs[i].members@[j]).state == Lifecycle::Inserting by {
        assert(current_and_live(q, w, p)(gs[i].members@[j]));
    }
}

/// Where no member stands at `p`, current flags are current and live.
proof fn lemma_live_join(q: Seq<TermView>, w: Seq<TabView>, gs: Seq<Group>, p: int)
    requires
        every_member(gs, flag_current(q, w)),
        forall|i: int, j: int| 0 <= i < gs.len() && 0 <= j < gs[i].members@.len() ==> (#[trigger] gs[i].members@[j]).pos != p,
    ensures
        every_member(gs, current_and_live(q, w, p)),
{
    assert forall|i: int, j: int| 0 <= i < gs.len() && 0 <= j < gs[i].members@.len()
        implies current_and_live(q, w, p)(#[trigger] gs[i].members@[j]) by {
        assert(flag_current(q, w)(gs[i].members@[j]));
    }
}

/// A member's search flag says whether its tab satisfies the query.
pub open spec fn flag_current(q: Seq<TermView>, w: Seq<TabView>) -> MemberInv {
    |m: Member| m.matches_search == query_holds(q, w[m.pos as int])
}

/// Every tab's tag names are distinct.
pub open spec fn tags_ok(w: Seq<TabView>) -> bool {
    forall|i: int| 0 <= i < w.len() ==> tags_distinct(#[trigger] w[i].tags)
}

proof fn lemma_total_keys_prefix(mode: SortMode, w: Seq<TabView>, p: int)
    requires
        0 <= p <= w.len(),
    ensures
        total_keys(mode, w.take(p)) <= total_keys(mode, w),
    decreases w.len() - p,
{
    if p < w.len() {
        lemma_total_keys_prefix(mode, w, p + 1);
        assert(w.take(p + 1).drop_last() =~= w.take(p));
    } else {
        assert(w.take(p) =~= w);
    }
}

/// Builds the groups of a whole window from nothing, in window order.
fn build(mode: SortMode, w: &Vec<TabInfo>, next_id: &mut u64, now: u64) -> (gs: Vec<Group>)
    requires
        tags_ok(window_view(w@)),
        *old(next_id) + total_keys(mode, window_view(w@)) <= u64::MAX,
    ensures
        placed(mode, window_view(w@), gs@, grouped(mode, window_view(w@)), Set::empty()),
        ids_below(gs@, *final(next_id)),
        *old(next_id) <= *final(next_id) <= *old(next_id) + total_keys(mode, window_view(w@)),
        every_group(gs@, built(mode, now, *old(next_id))),
        every_member(gs@, |m: Member| m.state == Lifecycle::Active),
{
    let ghost wv = window_view(w@);
    let ghost start = *next_id;
    let mut gs: Vec<Group> = Vec::new();
    let n = w.len();
    let mut p: usize = 0;
    proof {
        assert(placed(mode, wv, gs@, |q: int, k: KeyView| 0 <= q < 0 && has_key(mode, wv[q], k), Set::empty()));
    }
    while p < n
        invariant
            wv == window_view(w@),
            n == w@.len(),
            p <= n,
            tags_ok(wv),
            start + total_keys(mode, wv) <= u64::MAX,
            placed(mode, wv, gs@, |q: int, k: KeyView| 0 <= q < p && has_key(mode, wv[q], k), Set::empty()),
            ids_below(gs@, *next_id),
            every_group(gs@, built(mode, now, start)),
            every_member(gs@, |m: Member| m.state == Lifecycle::Active),
            start <= *next_id <= start + total_keys(mode, wv.take(p as int)),
        decreases n - p,
    {
        let ghost r0 = |q: int, k: KeyView| 0 <= q < p && has_key(mode, wv[q], k);
        proof {
            assert(wv.take(p + 1).drop_last() =~= wv.take(p as int));
            assert(wv.take(p + 1).last() == wv[p as int]);
            lemma_total_keys_prefix(mode, wv, p + 1);
            assert(tags_distinct(wv[p as int].tags));
        }
        place_tab(mode, w, &mut gs, next_id, p, Lifecycle::Active, false, now, true, Ghost(r0), Ghost(Set::empty()),
            Ghost(|m: Member| m.state == Lifecycle::Active), Ghost(built(mode, now, start)));
        proof {
            let r1 = |q: int, k: KeyView| 0 <= q < p + 1 && has_key(mode, wv[q], k);
            assert forall|q: int, k: KeyView| #[trigger] with_tab(r0, mode, p as int, wv[p as int])(q, k) == r1(q, k) by {}
            lemma_placed_ext(mode, wv, gs@, with_tab(r0, mode, p as int, wv[p as int]), r1, Set::empty());
        }
        p = p + 1;
    }
    proof {
        assert(wv.take(n as int) =~= wv);
        let r0 = |q: int, k: KeyView| 0 <= q < n && has_key(mode, wv[q], k);
        assert forall|q: int, k: KeyView| #[trigger] r0(q, k) == grouped(mode, wv)(q, k) by {}
        lemma_placed_ext(mode, wv, gs@, r0, grouped(mode, wv), Set::empty());
    }
    gs
}

/// Sets every member's search flag from the query.
#[verifier::loop_isolation(false)]
fn search_pass(gs: &mut Vec<Group>, w: &Vec<TabInfo>, query: &Query, Ghost(mode): Ghost<SortMode>, Ghost(rel): Ghost<Rel>)
    requires
        placed(mode, window_view(w@), old(gs)@, rel, Set::empty()),
    ensures
        moved(old(gs)@, final(gs)@, |q: int| q),
        every_member(final(gs)@, flag_current(query@, window_view(w@))),
        forall|i: int, j: int| 0 <= i < old(gs)@.len() && 0 <= j < old(gs)@[i].members@.len()
            ==> (#[trigger] final(gs)@[i].members@[j]).state == old(gs)@[i].members@[j].state,
{
    let ghost wv = window_view(w@);
    let ghost old_gs = gs@;
    let ghost f = |q: int| q;
    let ghost minv = flag_current(query@, wv);
    let n = gs.len();
    let mut i: usize = 0;
    while i < n
        invariant
            n == old_gs.len(),
            gs@.len() == n,
            i <= n,
            forall|a: int| i <= a < n ==> #[trigger] gs@[a] == old_gs[a],
            forall|a: int| 0 <= a < i ==> moved_group(old_gs[a], #[trigger] gs@[a], f),
            forall|a: int, j: int| 0 <= a < i && 0 <= j < gs@[a].members@.len() ==> minv(#[trigger] gs@[a].members@[j]),
            forall|a: int, j: int| 0 <= a < i && 0 <= j < old_gs[a].members@.len()
                ==> (#[trigger] gs@[a].members@[j]).state == old_gs[a].members@[j].state,
        decreases n - i,
    {
        let mut g = Group {
            id: 0,
            key: crate::keys::GroupKey::Unpinned,
            title: None,
            members: Vec::new(),
            state: Lifecycle::Active,
        };
        gs.set_and_swap(i, &mut g);
        assert(g == old_gs[i as int]);
        assert(crate::index::members_sorted(mode, wv, g.members@));
        let m = g.members.len();
        let mut j: usize = 0;
        while j < m
            invariant
                m == g.members@.len(),
                m == old_gs[i as int].members@.len(),
                g.key == old_gs[i as int].key,
                g.id == old_gs[i as int].id,
                g.title == old_gs[i as int].title,
                g.state == old_gs[i as int].state,
                j <= m,
                forall|l: int| 0 <= l < m ==> (#[trigger] g.members@[l]).pos == old_gs[i as int].members@[l].pos,
                forall|l: int| 0 <= l < m ==> (#[trigger] old_gs[i as int].members@[l]).pos < w@.len(),
                forall|l: int| 0 <= l < j ==> minv(#[trigger] g.members@[l]),
                forall|l: int| 0 <= l < m ==> (#[trigger] g.members@[l]).state == old_gs[i as int].members@[l].state,
            decreases m - j,
        {
            let pos = g.members[j].pos;
            let flag = query.matches(&w[pos]);
            let nm = Member { pos, state: g.members[j].state, matches_search: flag };
            g.members.set(j, nm);
            j = j + 1;
        }
        gs.set_and_swap(i, &mut g);
        i = i + 1;
    }
}

/// A membership that leaves the index (its Pending-Remove transition): the
/// tab at window position `pos`, as it was before the change, leaves group
/// `group`; `group_gone` where the group leaves with it.
pub struct Departure {
    pub group: u64,
    pub pos: usize,
    pub group_gone: bool,
}

/// The memberships of the tab at `p` in `gs`, in group order; a group goes
/// with the tab where the tab is its only member and it is not among the
/// groups that `stays` keeps.
pub open spec fn departures(gs: Seq<Group>, p: int, stays: spec_fn(KeyView) -> bool) -> Seq<Departure>
    decreases gs.len(),
{
    if gs.len() == 0 {
        Seq::empty()
    } else {
        let r = departures(gs.drop_last(), p, stays);
        let g = gs.last();
        if holds(g, p) {
            r.push(Departure { group: g.id, pos: p as usize, group_gone: g.members@.len() == 1 && !stays(g.key@) })
        } else {
            r
        }
    }
}

proof fn lemma_departures_ext(gs: Seq<Group>, p: int, s1: spec_fn(KeyView) -> bool, s2: spec_fn(KeyView) -> bool)
    requires
        forall|k: KeyView| #[trigger] s1(k) == s2(k),
    ensures
        departures(gs, p, s1) == departures(gs, p, s2),
    decreases gs.len(),
{
    if gs.len() > 0 {
        lemma_departures_ext(gs.drop_last(), p, s1, s2);
        assert(s1(gs.last().key@) == s2(gs.last().key@));
    }
}

fn has_member_at(ms: &Vec<Member>, p: usize) -> (r: bool)
    ensures
        r == crate::index::has_pos(ms@, p as int),
{
    let mut j: usize = 0;
    while j < ms.len()
        invariant
            j <= ms@.len(),
            forall|l: int| 0 <= l < j ==> (#[trigger] ms@[l]).pos != p,
        decreases ms@.len() - j,
    {
        if ms[j].pos == p {
            return true;
        }
        j = j + 1;
    }
    false
}

/// Some key of `keys` is `k`.
pub open spec fn listed(keys: Seq<crate::keys::GroupKey>, k: KeyView) -> bool {
    exists|i: int| 0 <= i < keys.len() && keys[i]@ == k
}

fn key_listed(Ghost(mode): Ghost<SortMode>, keys: &Vec<crate::keys::GroupKey>, k: &crate::keys::GroupKey) -> (r: bool)
    requires
        crate::keys::key_fits(mode, k@),
        forall|i: int| 0 <= i < keys@.len() ==> crate::keys::key_fits(mode, #[trigger] keys@[i]@),
    ensures
        r == listed(keys@, k@),
{
    let mut i: usize = 0;
    while i < keys.len()
        invariant
            i <= keys@.len(),
            crate::keys::key_fits(mode, k@),
            forall|x: int| 0 <= x < keys@.len() ==> crate::keys::key_fits(mode, #[trigger] keys@[x]@),
            forall|x: int| 0 <= x < i ==> (#[trigger] keys@[x])@ != k@,
        decreases keys@.len() - i,
    {
        if crate::keys::compare_keys(Ghost(mode), &keys[i], k) == 0 {
            return true;
        }
        i = i + 1;
    }
    false
}

/// The departures of the tab at `p` when it leaves every group but those
/// with a key in `stay_keys`.
fn departures_of(Ghost(mode): Ghost<SortMode>, gs: &Vec<Group>, p: usize, stay_keys: &Vec<crate::keys::GroupKey>)
    -> (r: Vec<Departure>)
    requires
        crate::index::keys_sorted(mode, gs@),
        forall|i: int| 0 <= i < stay_keys@.len() ==> crate::keys::key_fits(mode, #[trigger] stay_keys@[i]@),
    ensures
        r@ == departures(gs@, p as int, |k: KeyView| listed(stay_keys@, k)),
{
    let mut r: Vec<Departure> = Vec::new();
    let mut i: usize = 0;
    while i < gs.len()
        invariant
            i <= gs@.len(),
            crate::index::keys_sorted(mode, gs@),
            forall|x: int| 0 <= x < stay_keys@.len() ==> crate::keys::key_fits(mode, #[trigger] stay_keys@[x]@),
            r@ == departures(gs@.take(i as int), p as int, |k: KeyView| listed(stay_keys@, k)),
        decreases gs@.len() - i,
    {
        proof {
            assert(gs@.take(i + 1).drop_last() =~= gs@.take(i as int));
            assert(gs@.take(i + 1).last() == gs@[i as int]);
        }
        let ghost before = r@;
        let ghost g = gs@[i as int];
        proof {
            assert(crate::keys::key_fits(mode, g.key@));
            assert(departures(gs@.take(i + 1), p as int, |k: KeyView| listed(stay_keys@, k)) == if holds(g, p as int) {
                before.push(Departure { group: g.id, pos: p, group_gone: g.members@.len() == 1 && !listed(stay_keys@, g.key@) })
            } else {
                before
            });
        }
        if has_member_at(&gs[i].members, p) {
            let gone = gs[i].members.len() == 1 && !key_listed(Ghost(mode), stay_keys, &gs[i].key);
            r.push(Departure { group: gs[i].id, pos: p, group_gone: gone });
            assert(r@ == before.push(Departure { group: g.id, pos: p, group_gone: g.members@.len() == 1 && !listed(stay_keys@, g.key@) }));
        }
        i = i + 1;
    }
    assert(gs@.take(i as int) =~= gs@);
    r
}

/// Tabs of one window, grouped and ordered under a sort mode, with each
/// membership's search flag.
pub struct Groups {
    mode: SortMode,
    window: Vec<TabInfo>,
    groups: Vec<Group>,
    next_id: u64,
    query: Query,
}

pub struct GroupsView {
    pub mode: SortMode,
    pub window: Seq<TabView>,
    pub groups: Seq<Group>,
    pub next_id: u64,
    pub query: Seq<TermView>,
}

impl View for Groups {
    type V = GroupsView;

    closed spec fn view(&self) -> GroupsView {
        GroupsView {
            mode: self.mode,
            window: window_view(self.window@),
            groups: self.groups@,
            next_id: self.next_id,
            query: self.query@,
        }
    }
}

impl Groups {
    /// The groups are exactly the memberships of the window under the mode,
    /// sorted, none empty, titled after their keys; group ids are distinct;
    /// every search flag is current.
    pub open spec fn well_formed(&self) -> bool {
        &&& placed(self@.mode, self@.window, self@.groups, grouped(self@.mode, self@.window), Set::empty())
        &&& ids_below(self@.groups, self@.next_id)
        &&& every_group(self@.groups, titles_fit(self@.mode))
        &&& every_member(self@.groups, flag_current(self@.query, self@.window))
        &&& tags_ok(self@.window)
        &&& self@.window.len() < usize::MAX
    }

    /// Ids left for new groups.
    pub open spec fn spare_ids(&self) -> nat {
        (u64::MAX - self@.next_id) as nat
    }

    /// Groups a window under `mode`, every tab and group shown at once, then
    /// tests every tab against the query.
    pub fn new(mode: SortMode, window: Vec<TabInfo>, query: Query, now: u64) -> (r: Groups)
        requires
            tags_ok(window_view(window@)),
            window@.len() < usize::MAX,
            total_keys(mode, window_view(window@)) <= u64::MAX,
        ensures
            r.well_formed(),
            r@.mode == mode,
            r@.window == window_view(window@),
            r@.query == query@,
            all_in_state(r@.groups, Lifecycle::Active),
            all_built(mode, r@.groups, now),
            r@.next_id <= total_keys(mode, window_view(window@)),
    {
        let mut next_id: u64 = 0;
        let mut groups = build(mode, &window, &mut next_id, now);
        let ghost wv = window_view(window@);
        let ghost gs0 = groups@;
        search_pass(&mut groups, &window, &query, Ghost(mode), Ghost(grouped(mode, wv)));
        proof {
            lemma_placed_kept(mode, wv, gs0, groups@, grouped(mode, wv));
            lemma_states_kept(gs0, groups@);
            lemma_built_fit(mode, wv, groups@, grouped(mode, wv), now, 0);
        }
        Groups { mode, window, groups, next_id, query }
    }

    pub fn mode(&self) -> (r: SortMode)
        ensures
            r == self@.mode,
    {
        self.mode
    }

    pub fn window(&self) -> (r: &Vec<TabInfo>)
        ensures
            window_view(r@) == self@.window,
    {
        &self.window
    }

    pub fn groups(&self) -> (r: &Vec<Group>)
        ensures
            r@ == self@.groups,
    {
        &self.groups
    }

    /// Takes a new query and tests every tab against it.
    pub fn set_query(&mut self, query: Query)
        requires
            old(self).well_formed(),
        ensures
            final(self).well_formed(),
            final(self)@.query == query@,
            final(self)@.mode == old(self)@.mode,
            final(self)@.window == old(self)@.window,
            crate::laws::layout(final(self)@.groups) == crate::laws::layout(old(self)@.groups),
            ids_kept(old(self)@.groups, final(self)@.groups),
            final(self)@.next_id == old(self)@.next_id,
    {
        let ghost wv = window_view(self.window@);
        let ghost gs0 = self.groups@;
        self.query = query;
        search_pass(&mut self.groups, &self.window, &self.query, Ghost(self.mode), Ghost(grouped(self.mode, wv)));
        proof {
            lemma_placed_kept(self.mode, wv, gs0, self.groups@, grouped(self.mode, wv));
            assert forall|i: int, j: int| 0 <= i < self.groups@.len() && 0 <= j < gs0.len()
                && self.groups@[i].key@ == gs0[j].key@ implies #[trigger] self.groups@[i].id == #[trigger] gs0[j].id by {
                assert(moved_group(gs0[i], self.groups@[i], |q: int| q));
                if i != j {
                    crate::index::lemma_keys_distinct(self.mode, gs0, i, j);
                }
            }
            assert(crate::laws::layout(self.groups@) =~= crate::laws::layout(gs0)) by {
                assert forall|i: int| 0 <= i < gs0.len() implies #[trigger] crate::laws::layout(self.groups@)[i]
                    == crate::laws::layout(gs0)[i] by {
                    assert(moved_group(gs0[i], self.groups@[i], |q: int| q));
                    assert(self.groups@[i].members@.map_values(|m: Member| m.pos as int)
                        =~= gs0[i].members@.map_values(|m: Member| m.pos as int));
                }
            }
        }
    }

    /// Switches to `mode`: every group is dropped and the index is built again
    /// from the window, then every tab is tested against the query. Returns
    /// the dropped groups, all of which leave (Pending-Remove).
    pub fn change_sort(&mut self, mode: SortMode, now: u64) -> (r: Vec<Group>)
        requires
            old(self).well_formed(),
            total_keys(mode, old(self)@.window) <= old(self).spare_ids(),
        ensures
            final(self).well_formed(),
            final(self)@.mode == mode,
            final(self)@.window == old(self)@.window,
            final(self)@.query == old(self)@.query,
            all_in_state(final(self)@.groups, Lifecycle::Active),
            all_built(mode, final(self)@.groups, now),
            final(self)@.next_id <= old(self)@.next_id + total_keys(mode, old(self)@.window),
            forall|i: int, j: int| 0 <= i < final(self)@.groups.len() && 0 <= j < old(self)@.groups.len()
                ==> #[trigger] final(self)@.groups[i].id != #[trigger] old(self)@.groups[j].id,
            r@ == old(self)@.groups,
    {
        let ghost wv = window_view(self.window@);
        let ghost start = self.next_id;
        let ghost old_gs = self.groups@;
        self.mode = mode;
        let mut groups = build(mode, &self.window, &mut self.next_id, now);
        let ghost gs0 = groups@;
        search_pass(&mut groups, &self.window, &self.query, Ghost(mode), Ghost(grouped(mode, wv)));
        proof {
            lemma_placed_kept(mode, wv, gs0, groups@, grouped(mode, wv));
            lemma_states_kept(gs0, groups@);
            lemma_built_fit(mode, wv, groups@, grouped(mode, wv), now, start);
            assert forall|j: int| 0 <= j < old_gs.len() implies (#[trigger] old_gs[j]).id < start by {}
        }
        std::mem::swap(&mut self.groups, &mut groups);
        groups
    }
}

proof fn lemma_states_kept(gs0: Seq<Group>, gs1: Seq<Group>)
    requires
        every_member(gs0, |m: Member| m.state == Lifecycle::Active),
        moved(gs0, gs1, |q: int| q),
        forall|i: int, j: int| 0 <= i < gs0.len() && 0 <= j < gs0[i].members@.len()
            ==> (#[trigger] gs1[i].members@[j]).state == gs0[i].members@[j].state,
    ensures
        all_in_state(gs1, Lifecycle::Active),
{
    assert forall|i: int, j: int| 0 <= i < gs1.len() && 0 <= j < gs1[i].members@.len()
        implies (#[trigger] gs1[i].members@[j]).state == Lifecycle::Active by {
        assert(moved_group(gs0[i], gs1[i], |q: int| q));
        assert((|m: Member| m.state == Lifecycle::Active)(gs0[i].members@[j]));
    }
}

/// Changing only flags keeps an index placed, its ids and its titles.
proof fn lemma_placed_kept(mode: SortMode, w: Seq<TabView>, gs: Seq<Group>, gs2: Seq<Group>, rel: Rel)
    requires
        placed(mode, w, gs, rel, Set::empty()),
        moved(gs, gs2, |q: int| q),
    ensures
        placed(mode, w, gs2, rel, Set::empty()),
        forall|next: u64| ids_below(gs, next) ==> ids_below(gs2, next),
        forall|ginv: GroupInv| every_group(gs, ginv) ==> every_group(gs2, ginv),
{
    let f = |q: int| q;
    assert forall|q: int, k: KeyView| #[trigger] rel(q, k) implies 0 <= f(q) < w.len() && w[f(q)] == w[q] && rel(f(q), k) by {}
    lemma_placed_moved(mode, w, w, gs, gs2, rel, rel, Set::empty(), f, f);
    assert forall|next: u64| ids_below(gs, next) implies ids_below(gs2, next) by {
        assert forall|i: int| 0 <= i < gs2.len() implies (#[trigger] gs2[i]).id < next by {
            assert(moved_group(gs[i], gs2[i], f));
        }
        assert forall|i: int, j: int| 0 <= i < j < gs2.len() implies gs2[i].id != gs2[j].id by {
            assert(moved_group(gs[i], gs2[i], f));
            assert(moved_group(gs[j], gs2[j], f));
        }
    }
    assert forall|ginv: GroupInv| every_group(gs, ginv) implies every_group(gs2, ginv) by {
        assert forall|i: int| 0 <= i < gs2.len() implies ginv((#[trigger] gs2[i]).key@, crate::keys::opt_text(gs2[i].title), gs2[i].id, gs2[i].state) by {
            assert(moved_group(gs[i], gs2[i], f));
        }
    }
}

/// Moving members keeps their flags current where each moved position
/// reads the same tab, and keeps every group's key and title.
proof fn lemma_flags_moved(
    q: Seq<TermView>,
    w0: Seq<TabView>,
    w1: Seq<TabView>,
    gs0: Seq<Group>,
    gs1: Seq<Group>,
    f: spec_fn(int) -> int,
    ginv: GroupInv,
)
    requires
        every_member(gs0, flag_current(q, w0)),
        every_group(gs0, ginv),
        moved(gs0, gs1, f),
        forall|i: int, j: int| 0 <= i < gs0.len() && 0 <= j < gs0[i].members@.len()
            ==> (#[trigger] gs1[i].members@[j]).matches_search == gs0[i].members@[j].matches_search,
        forall|i: int, j: int| 0 <= i < gs0.len() && 0 <= j < gs0[i].members@.len()
            ==> w1[f(#[trigger] gs0[i].members@[j].pos as int)] == w0[gs0[i].members@[j].pos as int],
    ensures
        every_member(gs1, flag_current(q, w1)),
        every_group(gs1, ginv),
{
    assert forall|i: int, j: int| 0 <= i < gs1.len() && 0 <= j < gs1[i].members@.len()
        implies flag_current(q, w1)(#[trigger] gs1[i].members@[j]) by {
        assert(moved_group(gs0[i], gs1[i], f));
        let m0 = gs0[i].members@[j];
        assert(flag_current(q, w0)(m0));
        assert(w1[f(m0.pos as int)] == w0[m0.pos as int]);
    }
    assert forall|i: int| 0 <= i < gs1.len() implies ginv((#[trigger] gs1[i]).key@, crate::keys::opt_text(gs1[i].title), gs1[i].id, gs1[i].state) by {
        assert(moved_group(gs0[i], gs1[i], f));
    }
}

/// A tab's group titles fit their keys.
proof fn lemma_new_titles_fit(mode: SortMode, t: TabView, now: u64)
    ensures
        forall|k: KeyView| has_key(mode, t, k) ==> #[trigger] title_fits(mode, k, title_of(mode, k, now)),
{
    assert forall|k: KeyView| has_key(mode, t, k) implies #[trigger] title_fits(mode, k, title_of(mode, k, now)) by {
        match mode {
            SortMode::Tag => {
                if t.tags.len() > 0 {
                    let i = choose|i: int| 0 <= i < t.tags.len() && k == KeyView::Text(#[trigger] t.tags[i]);
                }
            },
            _ => {},
        }
    }
}

impl Groups {
    /// A tab comes into the window at `index`; later tabs move one place on.
    /// It joins each of its groups at its place, shown with an insert
    /// transition and tested against the query; groups that did not exist
    /// are made.
    pub fn tab_inserted(&mut self, index: usize, tab: TabInfo, now: u64)
        requires
            old(self).well_formed(),
            index <= old(self)@.window.len(),
            old(self)@.window.len() + 1 < usize::MAX,
            tags_distinct(tab@.tags),
            key_count(old(self)@.mode, tab@) <= old(self).spare_ids(),
        ensures
            final(self).well_formed(),
            final(self)@.mode == old(self)@.mode,
            final(self)@.query == old(self)@.query,
            final(self)@.window == old(self)@.window.insert(index as int, tab@),
            ids_kept(old(self)@.groups, final(self)@.groups),
            crate::index::kept(old(self)@.groups, final(self)@.groups),
            placed_live(final(self)@.groups, index as int),
            final(self)@.next_id <= old(self)@.next_id + key_count(old(self)@.mode, tab@),
            fresh_groups(old(self)@.mode, old(self)@.groups, final(self)@.groups, now),
    {
        let ghost mode = self.mode;
        let ghost q = self.query@;
        let ghost w0 = window_view(self.window@);
        let ghost gs0 = self.groups@;
        let ghost rel0 = grouped(mode, w0);
        let ghost tv = tab@;
        let flag = self.query.matches(&tab);
        proof {
            lemma_ids_start(mode, w0, gs0, rel0, now);
            assert forall|i: int, j: int| 0 <= i < gs0.len() && 0 <= j < gs0[i].members@.len()
                implies #[trigger] gs0[i].members@[j].pos < w0.len() by {
                assert(crate::index::members_sorted(mode, w0, gs0[i].members@));
            }
        }
        shift_members(&mut self.groups, index, true, Ghost(w0.len() as int));
        self.window.insert(index, tab);
        let ghost w1 = window_view(self.window@);
        let ghost rel1 = without_tab(grouped(mode, w1), index as int);
        proof {
            assert(w1 =~= w0.insert(index as int, tv));
            let f = shift_fn(index as int, true);
            let g = |x: int| if x > index { x - 1 } else { x };
            assert forall|a: int, ka: KeyView, b: int, kb: KeyView|
                #[trigger] rel0(a, ka) && #[trigger] rel0(b, kb) && a < b implies f(a) < f(b) by {}
            assert forall|x: int, k: KeyView| #[trigger] rel0(x, k) implies 0 <= f(x) < w1.len() && w1[f(x)] == w0[x]
                && rel1(f(x), k) by {}
            assert forall|x: int, k: KeyView| #[trigger] rel1(x, k) implies rel0(g(x), k) && f(g(x)) == x by {}
            lemma_placed_moved(mode, w0, w1, gs0, self.groups@, rel0, rel1, Set::empty(), f, g);
            lemma_flags_moved(q, w0, w1, gs0, self.groups@, f, titles_and_ids(mode, gs0, now));
            assert(tags_distinct(w1[index as int].tags));
            lemma_new_titles_fit(mode, w1[index as int], now);
            let gs1 = self.groups@;
            assert forall|j: int| 0 <= j < gs0.len() implies crate::index::has_group(gs1, #[trigger] gs0[j].key@) by {
                assert(moved_group(gs0[j], gs1[j], f));
            }
            assert forall|i: int, j: int| 0 <= i < gs1.len() && 0 <= j < gs1[i].members@.len()
                implies (#[trigger] gs1[i].members@[j]).pos != index by {
                assert(moved_group(gs0[i], gs1[i], f));
            }
            lemma_live_join(q, w1, gs1, index as int);
            assert forall|k: KeyView, id: u64| has_key(mode, w1[index as int], k) && !crate::index::has_group(gs1, k)
                implies #[trigger] titles_and_ids(mode, gs0, now)(k, title_of(mode, k, now), id, Lifecycle::Inserting) by {
                assert forall|j: int| 0 <= j < gs0.len() && #[trigger] gs0[j].key@ == k implies gs0[j].id == id by {
                    assert(moved_group(gs0[j], gs1[j], f));
                    assert(gs1[j].key@ == k);
                }
                if crate::index::has_group(gs0, k) {
                    let j = choose|j: int| 0 <= j < gs0.len() && gs0[j].key@ == k;
                    assert(moved_group(gs0[j], gs1[j], f));
                    assert(crate::index::has_group(gs1, k));
                }
            }
        }
        let ghost gs1 = self.groups@;
        place_tab(self.mode, &self.window, &mut self.groups, &mut self.next_id, index, Lifecycle::Inserting, flag, now, false,
            Ghost(rel1), Ghost(Set::empty()), Ghost(current_and_live(q, w1, index as int)), Ghost(titles_and_ids(mode, gs0, now)));
        proof {
            assert forall|x: int, k: KeyView| #[trigger] with_tab(rel1, mode, index as int, w1[index as int])(x, k)
                == grouped(mode, w1)(x, k) by {}
            lemma_placed_ext(mode, w1, self.groups@, with_tab(rel1, mode, index as int, w1[index as int]), grouped(mode, w1), Set::empty());
            lemma_ids_end(mode, gs0, self.groups@, now);
            lemma_live_split(q, w1, self.groups@, index as int);
            assert forall|j: int| 0 <= j < gs0.len() implies crate::index::has_group(self.groups@, #[trigger] gs0[j].key@) by {
                assert(crate::index::has_group(gs1, gs0[j].key@));
                let x = choose|x: int| 0 <= x < gs1.len() && gs1[x].key@ == gs0[j].key@;
                assert(crate::index::has_group(self.groups@, gs1[x].key@));
            }
            assert forall|i: int| 0 <= i < w1.len() implies tags_distinct(#[trigger] w1[i].tags) by {
                if i < index {
                    assert(w1[i] == w0[i]);
                } else if i > index {
                    assert(w1[i] == w0[i - 1]);
                }
            }
        }
    }

    /// The tab at `index` leaves the window; later tabs move one place back.
    /// It leaves each of its groups, and a group left empty is dropped.
    pub fn tab_removed(&mut self, index: usize) -> (r: Vec<Departure>)
        requires
            old(self).well_formed(),
            index < old(self)@.window.len(),
        ensures
            final(self).well_formed(),
            final(self)@.mode == old(self)@.mode,
            final(self)@.query == old(self)@.query,
            final(self)@.window == old(self)@.window.remove(index as int),
            ids_kept(old(self)@.groups, final(self)@.groups),
            final(self)@.next_id == old(self)@.next_id,
            r@ == departures(old(self)@.groups, index as int, |k: KeyView| false),
    {
        let no_keys: Vec<crate::keys::GroupKey> = Vec::new();
        let gone = departures_of(Ghost(self.mode), &self.groups, index, &no_keys);
        proof {
            assert forall|k: KeyView| !#[trigger] listed(no_keys@, k) by {}
            lemma_departures_ext(self.groups@, index as int, |k: KeyView| listed(no_keys@, k), |k: KeyView| false);
        }
        let ghost mode = self.mode;
        let ghost q = self.query@;
        let ghost w0 = window_view(self.window@);
        let ghost rel0 = grouped(mode, w0);
        let ghost gs0 = self.groups@;
        proof {
            lemma_ids_start(mode, w0, gs0, rel0, 0);
            assert(tags_distinct(w0[index as int].tags));
        }
        let keys = keys_for(self.mode, &self.window[index]);
        unplace_tab(Ghost(mode), Ghost(w0), &mut self.groups, index, &keys, Ghost(w0[index as int]), true, Ghost(rel0),
            Ghost(Set::empty()), Ghost(self.next_id), Ghost(flag_current(q, w0)), Ghost(titles_and_ids(mode, gs0, 0)));
        let ghost gs1 = self.groups@;
        let ghost rel1 = without_tab(rel0, index as int);
        proof {
            assert forall|i: int, j: int| 0 <= i < gs1.len() && 0 <= j < gs1[i].members@.len()
                implies #[trigger] gs1[i].members@[j].pos < w0.len() && gs1[i].members@[j].pos != index by {
                assert(crate::index::members_sorted(mode, w0, gs1[i].members@));
                assert(holds(gs1[i], gs1[i].members@[j].pos as int));
            }
        }
        shift_members(&mut self.groups, index, false, Ghost(w0.len() as int));
        self.window.remove(index);
        proof {
            let w1 = window_view(self.window@);
            assert(w1 =~= w0.remove(index as int));
            let f = shift_fn(index as int, false);
            let g = |x: int| if x >= index { x + 1 } else { x };
            assert forall|a: int, ka: KeyView, b: int, kb: KeyView|
                #[trigger] rel1(a, ka) && #[trigger] rel1(b, kb) && a < b implies f(a) < f(b) by {}
            assert forall|x: int, k: KeyView| #[trigger] rel1(x, k) implies 0 <= f(x) < w1.len() && w1[f(x)] == w0[x]
                && grouped(mode, w1)(f(x), k) by {}
            assert forall|x: int, k: KeyView| #[trigger] grouped(mode, w1)(x, k) implies rel1(g(x), k) && f(g(x)) == x by {}
            lemma_placed_moved(mode, w0, w1, gs1, self.groups@, rel1, grouped(mode, w1), Set::empty(), f, g);
            lemma_flags_moved(q, w0, w1, gs1, self.groups@, f, titles_and_ids(mode, gs0, 0));
            lemma_ids_end(mode, gs0, self.groups@, 0);
            assert forall|i: int| 0 <= i < w1.len() implies tags_distinct(#[trigger] w1[i].tags) by {
                if i < index {
                    assert(w1[i] == w0[i]);
                } else {
                    assert(w1[i] == w0[i + 1]);
                }
            }
        }
        gone
    }

    /// The tab at `index` takes new fields. It leaves the groups it no
    /// longer belongs to (a group left empty is dropped), joins the new ones,
    /// and takes its new place, tested again against the query, in the
    /// groups it stays in, which are kept even while it is out of them.
    pub fn tab_updated(&mut self, index: usize, tab: TabInfo, now: u64) -> (r: Vec<Departure>)
        requires
            old(self).well_formed(),
            index < old(self)@.window.len(),
            tags_distinct(tab@.tags),
            key_count(old(self)@.mode, tab@) <= old(self).spare_ids(),
        ensures
            final(self).well_formed(),
            final(self)@.mode == old(self)@.mode,
            final(self)@.query == old(self)@.query,
            final(self)@.window == old(self)@.window.update(index as int, tab@),
            ids_kept(old(self)@.groups, final(self)@.groups),
            placed_live(final(self)@.groups, index as int),
            final(self)@.next_id <= old(self)@.next_id + key_count(old(self)@.mode, tab@),
            fresh_groups(old(self)@.mode, old(self)@.groups, final(self)@.groups, now),
            r@ == departures(old(self)@.groups, index as int, |k: KeyView| has_key(old(self)@.mode, tab@, k)),
    {
        let new_keys = keys_for(self.mode, &tab);
        let gone = departures_of(Ghost(self.mode), &self.groups, index, &new_keys);
        proof {
            assert forall|k: KeyView| #[trigger] listed(new_keys@, k) == has_key(self.mode, tab@, k) by {
                if listed(new_keys@, k) {
                    let i = choose|i: int| 0 <= i < new_keys@.len() && new_keys@[i]@ == k;
                }
            }
            lemma_departures_ext(self.groups@, index as int, |k: KeyView| listed(new_keys@, k),
                |k: KeyView| has_key(self.mode, tab@, k));
        }
        let ghost mode = self.mode;
        let ghost q = self.query@;
        let ghost w0 = window_view(self.window@);
        let ghost rel0 = grouped(mode, w0);
        let ghost t0 = w0[index as int];
        let ghost tv = tab@;
        let ghost gs0 = self.groups@;
        let flag = self.query.matches(&tab);
        proof {
            lemma_ids_start(mode, w0, gs0, rel0, now);
            assert(tags_distinct(t0.tags));
        }
        let old_keys = keys_for(self.mode, &self.window[index]);
        unplace_tab(Ghost(mode), Ghost(w0), &mut self.groups, index, &old_keys, Ghost(t0), false, Ghost(rel0),
            Ghost(Set::empty()), Ghost(self.next_id), Ghost(flag_current(q, w0)), Ghost(titles_and_ids(mode, gs0, now)));
        let ghost idle = Set::<KeyView>::empty() + key_set(mode, t0);
        let ghost rel1 = without_tab(rel0, index as int);
        let ghost gs1 = self.groups@;
        self.window.set(index, tab);
        let ghost w1 = window_view(self.window@);
        proof {
            assert(w1 =~= w0.update(index as int, tv));
            lemma_placed_replace(mode, w0, self.groups@, rel1, idle, index as int, tv);
            let rel2 = without_tab(grouped(mode, w1), index as int);
            assert forall|x: int, k: KeyView| #[trigger] rel1(x, k) == rel2(x, k) by {}
            lemma_placed_ext(mode, w1, self.groups@, rel1, rel2, idle);
            assert(tags_distinct(w1[index as int].tags));
            assert forall|i: int, j: int| 0 <= i < gs1.len() && 0 <= j < gs1[i].members@.len()
                implies flag_current(q, w1)(#[trigger] gs1[i].members@[j]) by {
                let m = gs1[i].members@[j];
                assert(holds(gs1[i], m.pos as int));
                assert(m.pos != index);
                assert(flag_current(q, w0)(m));
            }
            lemma_new_titles_fit(mode, w1[index as int], now);
            assert forall|i: int, j: int| 0 <= i < gs1.len() && 0 <= j < gs1[i].members@.len()
                implies (#[trigger] gs1[i].members@[j]).pos != index by {
                assert(holds(gs1[i], gs1[i].members@[j].pos as int));
            }
            lemma_live_join(q, w1, gs1, index as int);
            assert forall|k: KeyView, id: u64| has_key(mode, w1[index as int], k) && !crate::index::has_group(gs1, k)
                implies #[trigger] titles_and_ids(mode, gs0, now)(k, title_of(mode, k, now), id, Lifecycle::Inserting) by {
                assert forall|j: int| 0 <= j < gs0.len() && #[trigger] gs0[j].key@ == k implies gs0[j].id == id by {
                    assert(crate::index::has_group(gs1, gs0[j].key@));
                }
                if crate::index::has_group(gs0, k) {
                    let j = choose|j: int| 0 <= j < gs0.len() && gs0[j].key@ == k;
                    assert(crate::index::has_group(gs1, gs0[j].key@));
                }
            }
        }
        let ghost rel2 = without_tab(grouped(mode, w1), index as int);
        place_tab(self.mode, &self.window, &mut self.groups, &mut self.next_id, index, Lifecycle::Inserting, flag, now, false,
            Ghost(rel2), Ghost(idle), Ghost(current_and_live(q, w1, index as int)), Ghost(titles_and_ids(mode, gs0, now)));
        proof {
            assert forall|x: int, k: KeyView| #[trigger] with_tab(rel2, mode, index as int, w1[index as int])(x, k)
                == grouped(mode, w1)(x, k) by {}
            lemma_placed_ext(mode, w1, self.groups@, with_tab(rel2, mode, index as int, w1[index as int]), grouped(mode, w1), idle);
        }
        let n = old_keys.len();
        let mut i: usize = 0;
        while i < n
            invariant
                n == old_keys@.len(),
                i <= n,
                forall|a: int| 0 <= a < n ==> has_key(mode, t0, #[trigger] old_keys@[a]@),
                forall|k: KeyView| has_key(mode, t0, k) ==> exists|a: int| 0 <= a < n && old_keys@[a]@ == k,
                mode == self.mode,
                q == self.query@,
                w1 == window_view(self.window@),
                placed(mode, w1, self.groups@, grouped(mode, w1),
                    key_set(mode, t0).filter(|k: KeyView| forall|a: int| 0 <= a < i ==> old_keys@[a]@ != k)),
                ids_below(self.groups@, self.next_id),
                self.next_id <= old(self).next_id + key_count(mode, tv),
                every_member(self.groups@, current_and_live(q, w1, index as int)),
                every_group(self.groups@, titles_and_ids(mode, gs0, now)),
            decreases n - i,
        {
            let ghost idle_i = key_set(mode, t0).filter(|k: KeyView| forall|a: int| 0 <= a < i ==> old_keys@[a]@ != k);
            proof {
                assert(crate::keys::key_fits(mode, old_keys@[i as int]@)) by {
                    let k = old_keys@[i as int]@;
                    assert(has_key(mode, t0, k));
                }
            }
            settle(Ghost(mode), Ghost(w1), &mut self.groups, &old_keys[i], Ghost(grouped(mode, w1)), Ghost(idle_i),
                Ghost(self.next_id), Ghost(current_and_live(q, w1, index as int)), Ghost(titles_and_ids(mode, gs0, now)));
            proof {
                assert(idle_i.remove(old_keys@[i as int]@) =~= key_set(mode, t0).filter(
                    |k: KeyView| forall|a: int| 0 <= a < i + 1 ==> old_keys@[a]@ != k));
            }
            i = i + 1;
        }
        proof {
            assert(key_set(mode, t0).filter(|k: KeyView| forall|a: int| 0 <= a < n ==> old_keys@[a]@ != k)
                =~= Set::<KeyView>::empty());
            lemma_ids_end(mode, gs0, self.groups@, now);
            lemma_live_split(q, w1, self.groups@, index as int);
            assert forall|j: int| 0 <= j < w1.len() implies tags_distinct(#[trigger] w1[j].tags) by {
                if j != index {
                    assert(w1[j] == w0[j]);
                }
            }
        }
        gone
    }
}

impl Groups {
    /// In the time modes, every group's title is set to the age of its hour
    /// at `now`; keys, members and order stay. Other modes keep their titles.
    #[verifier::loop_isolation(false)]
    pub fn update_group_titles(&mut self, now: u64)
        requires
            old(self).well_formed(),
        ensures
            final(self).well_formed(),
            final(self)@.mode == old(self)@.mode,
            final(self)@.window == old(self)@.window,
            final(self)@.query == old(self)@.query,
            crate::laws::layout(final(self)@.groups) == crate::laws::layout(old(self)@.groups),
            ids_kept(old(self)@.groups, final(self)@.groups),
            final(self)@.next_id == old(self)@.next_id,
            final(self)@.mode == SortMode::TimeFocused || final(self)@.mode == SortMode::TimeCreated ==> forall|i: int|
                0 <= i < final(self)@.groups.len() ==> crate::keys::opt_text((#[trigger] final(self)@.groups[i]).title)
                    == title_of(final(self)@.mode, final(self)@.groups[i].key@, now),
            !(final(self)@.mode == SortMode::TimeFocused || final(self)@.mode == SortMode::TimeCreated)
                ==> final(self)@.groups == old(self)@.groups,
    {
        if !matches!(self.mode, SortMode::TimeFocused | SortMode::TimeCreated) {
            proof {
                let gs = self.groups@;
                assert forall|a: int, b: int| 0 <= a < gs.len() && 0 <= b < gs.len() && gs[a].key@ == gs[b].key@
                    implies #[trigger] gs[a].id == #[trigger] gs[b].id by {
                    if a != b {
                        crate::index::lemma_keys_distinct(self.mode, gs, a, b);
                    }
                }
            }
            return;
        }
        let ghost gs0 = self.groups@;
        let ghost mode = self.mode;
        let ghost wv = window_view(self.window@);
        let n = self.groups.len();
        let mut i: usize = 0;
        while i < n
            invariant
                n == gs0.len(),
                self.groups@.len() == n,
                i <= n,
                mode == self.mode,
                self.query == old(self).query,
                self.window == old(self).window,
                self.next_id == old(self).next_id,
                gs0 == old(self).groups@,
                mode == SortMode::TimeFocused || mode == SortMode::TimeCreated,
                forall|a: int| i <= a < n ==> #[trigger] self.groups@[a] == gs0[a],
                forall|a: int| 0 <= a < n ==> (#[trigger] self.groups@[a]).key == gs0[a].key
                    && self.groups@[a].members == gs0[a].members && self.groups@[a].id == gs0[a].id
                    && self.groups@[a].state == gs0[a].state,
                forall|a: int| 0 <= a < i ==> crate::keys::opt_text((#[trigger] self.groups@[a]).title)
                    == title_of(mode, self.groups@[a].key@, now),
            decreases n - i,
        {
            let mut g = Group {
                id: 0,
                key: crate::keys::GroupKey::Unpinned,
                title: None,
                members: Vec::new(),
                state: Lifecycle::Active,
            };
            self.groups.set_and_swap(i, &mut g);
            g.title = crate::keys::group_title(self.mode, &g.key, now);
            self.groups.set_and_swap(i, &mut g);
            i = i + 1;
        }
        proof {
            let gs1 = self.groups@;
            assert forall|a: int| 0 <= a < n implies #[trigger] gs1[a].members@ == gs0[a].members@ by {}
            assert forall|a: int, q: int| 0 <= a < n implies (#[trigger] holds(gs1[a], q)) == holds(gs0[a], q) by {}
            assert(placed(mode, wv, gs1, grouped(mode, wv), Set::empty())) by {
                assert forall|a: int| 0 <= a < n implies crate::keys::key_fits(mode, (#[trigger] gs1[a]).key@)
                    && crate::index::members_sorted(mode, wv, gs1[a].members@)
                    && gs1[a].members@.len() > 0 by {
                    assert(gs1[a].members@ == gs0[a].members@);
                }
                assert forall|a: int, b: int| 0 <= a < b < n implies crate::keys::key_lt(gs1[a].key@, gs1[b].key@) by {}
                assert forall|x: int, k: KeyView| #[trigger] grouped(mode, wv)(x, k) implies
                    exists|j: int| 0 <= j < gs1.len() && gs1[j].key@ == k by {
                    let j = choose|j: int| 0 <= j < gs0.len() && gs0[j].key@ == k;
                    assert(gs1[j].key == gs0[j].key);
                }
            }
            assert forall|a: int, l: int| 0 <= a < n && 0 <= l < gs1[a].members@.len()
                implies flag_current(self.query@, wv)(#[trigger] gs1[a].members@[l]) by {
                assert(gs1[a].members@ == gs0[a].members@);
                assert(gs0[a].members@[l] == gs1[a].members@[l]);
                assert(every_member(gs0, flag_current(self.query@, wv)));
                assert(flag_current(self.query@, wv)(gs0[a].members@[l]));
            }
            assert forall|a: int, b: int| 0 <= a < n && 0 <= b < n && gs1[a].key@ == gs0[b].key@
                implies #[trigger] gs1[a].id == #[trigger] gs0[b].id by {
                if a != b {
                    crate::index::lemma_keys_distinct(mode, gs0, a, b);
                }
            }
            assert forall|a: int| 0 <= a < n implies titles_fit(mode)((#[trigger] gs1[a]).key@, crate::keys::opt_text(gs1[a].title), gs1[a].id, gs1[a].state) by {
                assert(crate::keys::key_fits(mode, gs0[a].key@));
            }
            assert(crate::laws::layout(gs1) =~= crate::laws::layout(gs0)) by {
                assert forall|a: int| 0 <= a < n implies #[trigger] crate::laws::layout(gs1)[a]
                    == crate::laws::layout(gs0)[a] by {
                    assert(gs1[a].members@ == gs0[a].members@);
                }
            }
        }
    }
}

} // verus!

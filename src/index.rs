//! The group index: groups sorted by key, each holding its members sorted in
//! the mode's tab order, and the primitive steps that every operation of the
//! engine is made of.
//!
//! Membership is stated against a relation `rel(p, k)`: the tab at window
//! position `p` is a member of the group with key `k`. Between operations
//! `rel` is `has_key` of the window; inside one it is what has been placed so
//! far.
use vstd::prelude::*;
use crate::keys::{
    GroupKey, KeyView, SortMode, TabInfo, TabView, compare_keys, group_title, key_fits, key_lt,
    has_key, key_count, keys_for, tags_distinct,
    lemma_key_order, lemma_tab_order, tab_before, tab_lt, title_of, opt_text,
};

verus! {

/// How an entry came into the index, for the view that draws it. Leaving is
/// reported by the operation that removes the entry (`Departure`, or the
/// dropped groups of a mode switch).
#[derive(Clone, Copy, Debug, PartialEq, Eq, Structural)]
pub enum Lifecycle {
    /// Placed by a live change; shown with an insert transition.
    Inserting,
    /// Placed by a bulk load; shown at once.
    Active,
}

/// One membership of a tab in a group.
#[derive(Clone, Debug)]
pub struct Member {
    /// The tab's position in the window.
    pub pos: usize,
    pub state: Lifecycle,
    /// Whether the tab matched the search when it was last tested.
    pub matches_search: bool,
}

#[derive(Clone, Debug)]
pub struct Group {
    /// Unique among the groups that one engine has made.
    pub id: u64,
    pub key: GroupKey,
    pub title: Option<String>,
    pub members: Vec<Member>,
    pub state: Lifecycle,
}

pub type Rel = spec_fn(int, KeyView) -> bool;

pub open spec fn has_pos(ms: Seq<Member>, p: int) -> bool {
    exists|j: int| 0 <= j < ms.len() && ms[j].pos == p
}

pub open spec fn holds(g: Group, p: int) -> bool {
    has_pos(g.members@, p)
}

/// Member positions are in the window and strictly in the mode's tab order.
pub open spec fn members_sorted(mode: SortMode, w: Seq<TabView>, ms: Seq<Member>) -> bool {
    &&& forall|j: int| 0 <= j < ms.len() ==> (#[trigger] ms[j]).pos < w.len()
    &&& forall|j: int, l: int|
        0 <= j < l < ms.len() ==> tab_lt(
            mode,
            w[ms[j].pos as int],
            ms[j].pos as int,
            w[ms[l].pos as int],
            ms[l].pos as int,
        )
}

/// Groups strictly in key order, every key of the mode.
pub open spec fn keys_sorted(mode: SortMode, gs: Seq<Group>) -> bool {
    &&& forall|i: int| 0 <= i < gs.len() ==> key_fits(mode, (#[trigger] gs[i]).key@)
    &&& forall|i: int, j: int| 0 <= i < j < gs.len() ==> key_lt(gs[i].key@, gs[j].key@)
}

/// The index holds exactly the memberships of `rel`, sorted; only groups
/// whose key is in `idle` may be empty.
pub open spec fn placed(
    mode: SortMode,
    w: Seq<TabView>,
    gs: Seq<Group>,
    rel: Rel,
    idle: Set<KeyView>,
) -> bool {
    &&& keys_sorted(mode, gs)
    &&& forall|i: int| 0 <= i < gs.len() ==> members_sorted(mode, w, (#[trigger] gs[i]).members@)
    &&& forall|i: int|
        0 <= i < gs.len() ==> (#[trigger] gs[i]).members@.len() > 0 || idle.contains(gs[i].key@)
    &&& forall|i: int, p: int|
        #![trigger holds(gs[i], p)]
        #![trigger rel(p, gs[i].key@)]
        0 <= i < gs.len() ==> (holds(gs[i], p) <==> rel(p, gs[i].key@))
    &&& forall|p: int, k: KeyView| #[trigger] rel(p, k) ==> 0 <= p < w.len() && key_fits(mode, k)
        && exists|i: int| 0 <= i < gs.len() && gs[i].key@ == k
}

pub type MemberInv = spec_fn(Member) -> bool;

pub type GroupInv = spec_fn(KeyView, Option<Seq<char>>, u64, Lifecycle) -> bool;

/// Every member satisfies `minv`.
pub open spec fn every_member(gs: Seq<Group>, minv: MemberInv) -> bool {
    forall|i: int, j: int| 0 <= i < gs.len() && 0 <= j < gs[i].members@.len() ==> minv(#[trigger] gs[i].members@[j])
}

/// Every group's key, title, id and state satisfy `ginv`.
pub open spec fn every_group(gs: Seq<Group>, ginv: GroupInv) -> bool {
    forall|i: int| 0 <= i < gs.len() ==> ginv((#[trigger] gs[i]).key@, opt_text(gs[i].title), gs[i].id, gs[i].state)
}

/// Some group has key `k`.
pub open spec fn has_group(gs: Seq<Group>, k: KeyView) -> bool {
    exists|i: int| 0 <= i < gs.len() && gs[i].key@ == k
}

/// Every key of `gs0` still has a group in `gs1`.
pub open spec fn kept(gs0: Seq<Group>, gs1: Seq<Group>) -> bool {
    forall|j: int| 0 <= j < gs0.len() ==> has_group(gs1, #[trigger] gs0[j].key@)
}

/// Group ids are distinct and below `next`.
pub open spec fn ids_below(gs: Seq<Group>, next: u64) -> bool {
    &&& forall|i: int| 0 <= i < gs.len() ==> (#[trigger] gs[i]).id < next
    &&& forall|i: int, j: int| 0 <= i < j < gs.len() ==> gs[i].id != gs[j].id
}

/// Where `k` is, or would go, in sorted groups.
fn find_group(Ghost(mode): Ghost<SortMode>, gs: &Vec<Group>, k: &GroupKey) -> (r: Result<usize, usize>)
    requires
        keys_sorted(mode, gs@),
        key_fits(mode, k@),
    ensures
        r matches Ok(i) ==> i < gs@.len() && gs@[i as int].key@ == k@,
        r matches Err(i) ==> i <= gs@.len()
            && (forall|j: int| 0 <= j < i ==> key_lt(#[trigger] gs@[j].key@, k@))
            && (forall|j: int| i <= j < gs@.len() ==> key_lt(k@, #[trigger] gs@[j].key@)),
{
    let mut lo: usize = 0;
    let mut hi: usize = gs.len();
    while lo < hi
        invariant
            keys_sorted(mode, gs@),
            key_fits(mode, k@),
            lo <= hi <= gs@.len(),
            forall|j: int| 0 <= j < lo ==> key_lt(#[trigger] gs@[j].key@, k@),
            forall|j: int| hi <= j < gs@.len() ==> key_lt(k@, #[trigger] gs@[j].key@),
        decreases hi - lo,
    {
        let mid = lo + (hi - lo) / 2;
        let c = compare_keys(Ghost(mode), &gs[mid].key, k);
        if c == 0 {
            return Ok(mid);
        } else if c == -1 {
            assert forall|j: int| 0 <= j <= mid implies key_lt(#[trigger] gs@[j].key@, k@) by {
                if j < mid {
                    assert(key_lt(gs@[j].key@, gs@[mid as int].key@));
                    lemma_key_order(mode, gs@[j].key@, gs@[mid as int].key@, k@);
                }
            }
            lo = mid + 1;
        } else {
            assert forall|j: int| mid <= j < gs@.len() implies key_lt(k@, #[trigger] gs@[j].key@) by {
                if j > mid {
                    assert(key_lt(gs@[mid as int].key@, gs@[j].key@));
                    lemma_key_order(mode, k@, gs@[mid as int].key@, gs@[j].key@);
                }
            }
            hi = mid;
        }
    }
    Err(lo)
}

} // verus!

verus! {

pub open spec fn window_view(w: Seq<TabInfo>) -> Seq<TabView> {
    w.map_values(|t: TabInfo| t@)
}

/// The tab order on window positions `p` and `q`.
pub open spec fn pos_lt(mode: SortMode, w: Seq<TabView>, p: int, q: int) -> bool {
    tab_lt(mode, w[p], p, w[q], q)
}

/// Puts `m` into sorted members at its place; returns that place. With
/// `append`, in window order, where every member comes before `m`, it goes
/// last without a search.
fn insert_member(mode: SortMode, w: &Vec<TabInfo>, ms: &mut Vec<Member>, m: Member, append: bool) -> (r: usize)
    requires
        members_sorted(mode, window_view(w@), old(ms)@),
        m.pos < w@.len(),
        forall|j: int| 0 <= j < old(ms)@.len() ==> (#[trigger] old(ms)@[j]).pos != m.pos,
        append ==> mode == SortMode::Window || mode == SortMode::Tag,
        append ==> forall|j: int| 0 <= j < old(ms)@.len() ==> (#[trigger] old(ms)@[j]).pos < m.pos,
    ensures
        r <= old(ms)@.len(),
        final(ms)@ == old(ms)@.insert(r as int, m),
        members_sorted(mode, window_view(w@), final(ms)@),
{
    if append {
        let at = ms.len();
        let ghost before = ms@;
        ms.push(m);
        proof {
            assert(ms@ =~= before.insert(at as int, m));
            let wv = window_view(w@);
            assert forall|a: int, b: int| 0 <= a < b < ms@.len() implies tab_lt(
                mode,
                wv[ms@[a].pos as int],
                ms@[a].pos as int,
                wv[ms@[b].pos as int],
                ms@[b].pos as int,
            ) by {
                assert(ms@[a] == before[a]);
                if b < at {
                    assert(ms@[b] == before[b]);
                }
            }
            assert forall|j: int| 0 <= j < ms@.len() implies (#[trigger] ms@[j]).pos < w@.len() by {
                if j < at {
                    assert(ms@[j] == before[j]);
                }
            }
        }
        return at;
    }
    let ghost wv = window_view(w@);
    let mut lo: usize = 0;
    let mut hi: usize = ms.len();
    while lo < hi
        invariant
            members_sorted(mode, wv, ms@),
            wv == window_view(w@),
            m.pos < w@.len(),
            forall|j: int| 0 <= j < ms@.len() ==> (#[trigger] ms@[j]).pos != m.pos,
            lo <= hi <= ms@.len(),
            forall|j: int| 0 <= j < lo ==> pos_lt(mode, wv, (#[trigger] ms@[j]).pos as int, m.pos as int),
            forall|j: int| hi <= j < ms@.len() ==> pos_lt(mode, wv, m.pos as int, (#[trigger] ms@[j]).pos as int),
        decreases hi - lo,
    {
        let mid = lo + (hi - lo) / 2;
        let q = ms[mid].pos;
        let before = tab_before(mode, &w[q], q, &w[m.pos], m.pos);
        proof {
            lemma_tab_order(mode, wv[q as int], q as int, wv[m.pos as int], m.pos as int, wv[q as int], q as int);
        }
        if before {
            assert forall|j: int| 0 <= j <= mid implies pos_lt(mode, wv, (#[trigger] ms@[j]).pos as int, m.pos as int) by {
                if j < mid {
                    let a = ms@[j].pos as int;
                    lemma_tab_order(mode, wv[a], a, wv[q as int], q as int, wv[m.pos as int], m.pos as int);
                }
            }
            lo = mid + 1;
        } else {
            assert forall|j: int| mid <= j < ms@.len() implies pos_lt(mode, wv, m.pos as int, (#[trigger] ms@[j]).pos as int) by {
                if j > mid {
                    let a = ms@[j].pos as int;
                    lemma_tab_order(mode, wv[m.pos as int], m.pos as int, wv[q as int], q as int, wv[a], a);
                }
            }
            hi = mid;
        }
    }
    let ghost before = ms@;
    ms.insert(lo, m);
    proof {
        let after = ms@;
        assert forall|a: int, b: int| 0 <= a < b < after.len() implies tab_lt(
            mode,
            wv[after[a].pos as int],
            after[a].pos as int,
            wv[after[b].pos as int],
            after[b].pos as int,
        ) by {
            if b < lo {
                assert(after[a] == before[a] && after[b] == before[b]);
            } else if b == lo {
                assert(after[a] == before[a]);
            } else if a == lo {
                assert(after[b] == before[b - 1]);
            } else if a < lo {
                assert(after[a] == before[a] && after[b] == before[b - 1]);
            } else {
                assert(after[a] == before[a - 1] && after[b] == before[b - 1]);
            }
        }
        assert forall|j: int| 0 <= j < after.len() implies (#[trigger] after[j]).pos < w@.len() by {
            if j < lo {
                assert(after[j] == before[j]);
            } else if j > lo {
                assert(after[j] == before[j - 1]);
            }
        }
    }
    lo
}

} // verus!

verus! {

pub open spec fn with_pair(rel: Rel, p: int, k: KeyView) -> Rel {
    |q: int, x: KeyView| rel(q, x) || (q == p && x == k)
}

pub open spec fn without_pair(rel: Rel, p: int, k: KeyView) -> Rel {
    |q: int, x: KeyView| rel(q, x) && !(q == p && x == k)
}

pub(crate) proof fn lemma_keys_distinct(mode: SortMode, gs: Seq<Group>, i: int, j: int)
    requires
        keys_sorted(mode, gs),
        0 <= i < gs.len(),
        0 <= j < gs.len(),
        i != j,
    ensures
        gs[i].key@ != gs[j].key@,
{
    lemma_key_order(mode, gs[i].key@, gs[j].key@, gs[i].key@);
    if i < j {
        assert(key_lt(gs[i].key@, gs[j].key@));
    } else {
        assert(key_lt(gs[j].key@, gs[i].key@));
    }
}

/// Places the tab at `p` in the group with key `k`, making the group where
/// there is none yet.
#[verifier::rlimit(40)]
fn add_member(
    mode: SortMode,
    w: &Vec<TabInfo>,
    gs: &mut Vec<Group>,
    next_id: &mut u64,
    p: usize,
    k: GroupKey,
    state: Lifecycle,
    matches: bool,
    now: u64,
    bulk: bool,
    Ghost(rel): Ghost<Rel>,
    Ghost(idle): Ghost<Set<KeyView>>,
    Ghost(minv): Ghost<MemberInv>,
    Ghost(ginv): Ghost<GroupInv>,
)
    requires
        placed(mode, window_view(w@), old(gs)@, rel, idle),
        ids_below(old(gs)@, *old(next_id)),
        *old(next_id) < u64::MAX,
        bulk ==> forall|q: int| #[trigger] rel(q, k@) ==> q < p,
        p < w@.len(),
        key_fits(mode, k@),
        !rel(p as int, k@),
        every_member(old(gs)@, minv),
        every_group(old(gs)@, ginv),
        minv(Member { pos: p, state, matches_search: matches }),
        !has_group(old(gs)@, k@) ==> ginv(k@, title_of(mode, k@, now), *old(next_id), state),
    ensures
        placed(mode, window_view(w@), final(gs)@, with_pair(rel, p as int, k@), idle),
        ids_below(final(gs)@, *final(next_id)),
        *old(next_id) <= *final(next_id) <= *old(next_id) + 1,
        every_member(final(gs)@, minv),
        every_group(final(gs)@, ginv),
        kept(old(gs)@, final(gs)@),
{
    let ghost wv = window_view(w@);
    let ghost old_gs = gs@;
    let ghost rel2 = with_pair(rel, p as int, k@);
    let m = Member { pos: p, state, matches_search: matches };
    match find_group(Ghost(mode), gs, &k) {
        Ok(i) => {
            let mut g = gs.remove(i);
            assert(g == old_gs[i as int]);
            assert forall|j: int| 0 <= j < g.members@.len() implies (#[trigger] g.members@[j]).pos != m.pos by {
                if g.members@[j].pos == m.pos {
                    assert(holds(old_gs[i as int], p as int));
                }
            }
            let ghost old_ms = g.members@;
            let append = bulk && matches!(mode, SortMode::Window | SortMode::Tag);
            proof {
                if append {
                    assert forall|j: int| 0 <= j < old_ms.len() implies (#[trigger] old_ms[j]).pos < m.pos by {
                        assert(holds(old_gs[i as int], old_ms[j].pos as int));
                    }
                }
            }
            let at = insert_member(mode, w, &mut g.members, m, append);
            gs.insert(i, g);
            proof {
                let ng = gs@;
                assert(ng =~= old_gs.update(i as int, g));
                assert forall|j: int| 0 <= j < ng.len() implies key_fits(mode, (#[trigger] ng[j]).key@) by {
                    assert(ng[j].key == old_gs[j].key);
                }
                assert forall|a: int, b: int| 0 <= a < b < ng.len() implies key_lt(ng[a].key@, ng[b].key@) by {
                    assert(ng[a].key == old_gs[a].key && ng[b].key == old_gs[b].key);
                }
                assert forall|j: int| 0 <= j < ng.len() implies members_sorted(mode, wv, (#[trigger] ng[j]).members@) by {
                    if j != i {
                        assert(ng[j] == old_gs[j]);
                    }
                }
                assert forall|j: int| 0 <= j < ng.len() implies (#[trigger] ng[j]).members@.len() > 0
                    || idle.contains(ng[j].key@) by {
                    if j != i {
                        assert(ng[j] == old_gs[j]);
                    }
                }
                assert forall|j: int, q: int| 0 <= j < ng.len() implies (#[trigger] holds(ng[j], q) <==> rel2(q, ng[j].key@)) by {
                    if j != i {
                        assert(ng[j] == old_gs[j]);
                        lemma_keys_distinct(mode, old_gs, i as int, j);
                        assert(holds(old_gs[j], q) <==> rel(q, old_gs[j].key@));
                    } else {
                        assert(holds(old_gs[j], q) <==> rel(q, old_gs[j].key@));
                        if holds(ng[j], q) {
                            let l = choose|l: int| 0 <= l < ng[j].members@.len() && ng[j].members@[l].pos == q;
                            if l < at {
                                assert(ng[j].members@[l] == old_ms[l]);
                            } else if l > at {
                                assert(ng[j].members@[l] == old_ms[l - 1]);
                            }
                        }
                        if rel(q, k@) {
                            let l = choose|l: int| 0 <= l < old_ms.len() && old_ms[l].pos == q;
                            if l < at {
                                assert(ng[j].members@[l] == old_ms[l]);
                            } else {
                                assert(ng[j].members@[l + 1] == old_ms[l]);
                            }
                        }
                        if q == p {
                            assert(ng[j].members@[at as int] == m);
                        }
                    }
                }
                assert forall|q: int, x: KeyView| #[trigger] rel2(q, x) implies 0 <= q < wv.len() && key_fits(mode, x)
                    && exists|j: int| 0 <= j < ng.len() && ng[j].key@ == x by {
                    if rel(q, x) {
                        let j = choose|j: int| 0 <= j < old_gs.len() && old_gs[j].key@ == x;
                        assert(ng[j].key == old_gs[j].key);
                    } else {
                        assert(ng[i as int].key@ == x);
                    }
                }
                assert forall|a: int| 0 <= a < ng.len() implies (#[trigger] ng[a]).id < *next_id by {
                    assert(ng[a].id == old_gs[a].id && ng[a].state == old_gs[a].state);
                }
                assert forall|a: int, b: int| 0 <= a < b < ng.len() implies ng[a].id != ng[b].id by {
                    assert(ng[a].id == old_gs[a].id && ng[b].id == old_gs[b].id);
                }
                assert forall|a: int, l: int| 0 <= a < ng.len() && 0 <= l < ng[a].members@.len()
                    implies minv(#[trigger] ng[a].members@[l]) by {
                    if a != i {
                        assert(ng[a] == old_gs[a]);
                    } else if l < at {
                        assert(ng[a].members@[l] == old_ms[l]);
                        assert(old_ms[l] == old_gs[a].members@[l]);
                    } else if l > at {
                        assert(ng[a].members@[l] == old_ms[l - 1]);
                        assert(old_ms[l - 1] == old_gs[a].members@[l - 1]);
                    }
                }
                assert forall|a: int| 0 <= a < ng.len() implies ginv((#[trigger] ng[a]).key@, opt_text(ng[a].title), ng[a].id, ng[a].state) by {
                    assert(ng[a].key == old_gs[a].key && ng[a].title == old_gs[a].title && ng[a].id == old_gs[a].id && ng[a].state == old_gs[a].state);
                }
                assert forall|a: int| 0 <= a < old_gs.len() implies has_group(ng, #[trigger] old_gs[a].key@) by {
                    assert(ng[a].key == old_gs[a].key);
                }
            }
        },
        Err(i) => {
            let title = group_title(mode, &k, now);
            let mut members: Vec<Member> = Vec::new();
            members.push(m);
            assert(members@ == seq![m]);
            let g = Group { id: *next_id, key: k, title, members, state };
            gs.insert(i, g);
            *next_id = *next_id + 1;
            proof {
                let ng = gs@;
                assert(ng =~= old_gs.insert(i as int, g));
                assert forall|j: int| 0 <= j < old_gs.len() implies old_gs[j].key@ != k@ by {
                    lemma_key_order(mode, k@, k@, k@);
                }
                assert(!has_group(old_gs, k@));
                assert forall|a: int| 0 <= a < old_gs.len() implies has_group(ng, #[trigger] old_gs[a].key@) by {
                    if a < i {
                        assert(ng[a] == old_gs[a]);
                    } else {
                        assert(ng[a + 1] == old_gs[a]);
                    }
                }
                assert forall|q: int| !#[trigger] rel(q, k@) by {
                    if rel(q, k@) {
                        let j = choose|j: int| 0 <= j < old_gs.len() && old_gs[j].key@ == k@;
                    }
                }
                assert forall|j: int| 0 <= j < ng.len() implies key_fits(mode, (#[trigger] ng[j]).key@) by {
                    if j < i {
                        assert(ng[j] == old_gs[j]);
                    } else if j > i {
                        assert(ng[j] == old_gs[j - 1]);
                    }
                }
                assert forall|a: int, b: int| 0 <= a < b < ng.len() implies key_lt(ng[a].key@, ng[b].key@) by {
                    if b < i {
                        assert(ng[a] == old_gs[a] && ng[b] == old_gs[b]);
                    } else if b == i {
                        assert(ng[a] == old_gs[a]);
                    } else if a == i {
                        assert(ng[b] == old_gs[b - 1]);
                    } else if a < i {
                        assert(ng[a] == old_gs[a] && ng[b] == old_gs[b - 1]);
                    } else {
                        assert(ng[a] == old_gs[a - 1] && ng[b] == old_gs[b - 1]);
                    }
                }
                assert forall|j: int| 0 <= j < ng.len() implies members_sorted(mode, wv, (#[trigger] ng[j]).members@)
                    && (ng[j].members@.len() > 0 || idle.contains(ng[j].key@)) by {
                    if j < i {
                        assert(ng[j] == old_gs[j]);
                    } else if j > i {
                        assert(ng[j] == old_gs[j - 1]);
                    }
                }
                assert forall|j: int, q: int| 0 <= j < ng.len() implies (#[trigger] holds(ng[j], q) <==> rel2(q, ng[j].key@)) by {
                    if j < i {
                        assert(ng[j] == old_gs[j]);
                        assert(holds(old_gs[j], q) <==> rel(q, old_gs[j].key@));
                    } else if j > i {
                        assert(ng[j] == old_gs[j - 1]);
                        assert(holds(old_gs[j - 1], q) <==> rel(q, old_gs[j - 1].key@));
                    } else {
                        if q == p {
                            assert(ng[j].members@[0] == m);
                        }
                    }
                }
                assert forall|q: int, x: KeyView| #[trigger] rel2(q, x) implies 0 <= q < wv.len() && key_fits(mode, x)
                    && exists|j: int| 0 <= j < ng.len() && ng[j].key@ == x by {
                    if rel(q, x) {
                        let j = choose|j: int| 0 <= j < old_gs.len() && old_gs[j].key@ == x;
                        if j < i {
                            assert(ng[j] == old_gs[j]);
                        } else {
                            assert(ng[j + 1] == old_gs[j]);
                        }
                    } else {
                        assert(ng[i as int].key@ == x);
                    }
                }
                assert forall|a: int| 0 <= a < ng.len() implies (#[trigger] ng[a]).id < *next_id
                    && ginv(ng[a].key@, opt_text(ng[a].title), ng[a].id, ng[a].state) by {
                    if a < i {
                        assert(ng[a] == old_gs[a]);
                    } else if a > i {
                        assert(ng[a] == old_gs[a - 1]);
                    }
                }
                assert forall|a: int, l: int| 0 <= a < ng.len() && 0 <= l < ng[a].members@.len()
                    implies minv(#[trigger] ng[a].members@[l]) by {
                    if a < i {
                        assert(ng[a] == old_gs[a]);
                    } else if a > i {
                        assert(ng[a] == old_gs[a - 1]);
                    }
                }
                assert forall|a: int, b: int| 0 <= a < b < ng.len() implies ng[a].id != ng[b].id by {
                    if b < i {
                        assert(ng[a] == old_gs[a] && ng[b] == old_gs[b]);
                    } else if b == i {
                        assert(ng[a] == old_gs[a]);
                    } else if a == i {
                        assert(ng[b] == old_gs[b - 1]);
                    } else if a < i {
                        assert(ng[a] == old_gs[a] && ng[b] == old_gs[b - 1]);
                    } else {
                        assert(ng[a] == old_gs[a - 1] && ng[b] == old_gs[b - 1]);
                    }
                }
            }
        },
    }
}

} // verus!

verus! {

/// Takes the member at window position `p` out of sorted members.
fn take_member(Ghost(mode): Ghost<SortMode>, Ghost(wv): Ghost<Seq<TabView>>, ms: &mut Vec<Member>, p: usize)
    requires
        members_sorted(mode, wv, old(ms)@),
        exists|j: int| 0 <= j < old(ms)@.len() && old(ms)@[j].pos == p,
    ensures
        members_sorted(mode, wv, final(ms)@),
        forall|q: int| #[trigger] has_pos(final(ms)@, q) <==> (q != p && has_pos(old(ms)@, q)),
        final(ms)@.len() == old(ms)@.len() - 1,
        exists|l: int| 0 <= l < old(ms)@.len() && final(ms)@ == old(ms)@.remove(l),
{
    let ghost before = ms@;
    let mut l: usize = 0;
    while l < ms.len() && ms[l].pos != p
        invariant
            ms@ == before,
            l <= ms@.len(),
            exists|j: int| 0 <= j < ms@.len() && ms@[j].pos == p,
            forall|j: int| 0 <= j < l ==> (#[trigger] ms@[j]).pos != p,
        decreases ms@.len() - l,
    {
        l = l + 1;
    }
    if l == ms.len() {
        proof {
            let j = choose|j: int| 0 <= j < ms@.len() && ms@[j].pos == p;
            assert(ms@[j].pos != p);
        }
    }
    ms.remove(l);
    proof {
        let after = ms@;
        assert(after =~= before.remove(l as int));
        assert forall|j: int| 0 <= j < after.len() implies (#[trigger] after[j]).pos < wv.len() by {
            if j >= l {
                assert(after[j] == before[j + 1]);
            }
        }
        assert forall|a: int, b: int| 0 <= a < b < after.len() implies tab_lt(
            mode,
            wv[after[a].pos as int],
            after[a].pos as int,
            wv[after[b].pos as int],
            after[b].pos as int,
        ) by {
            if b < l {
                assert(after[a] == before[a] && after[b] == before[b]);
            } else if a < l {
                assert(after[a] == before[a] && after[b] == before[b + 1]);
            } else {
                assert(after[a] == before[a + 1] && after[b] == before[b + 1]);
            }
        }
        assert forall|q: int| #[trigger] has_pos(after, q) <==> (q != p && has_pos(before, q)) by {
            if has_pos(after, q) {
                let j = choose|j: int| 0 <= j < after.len() && after[j].pos == q;
                if j < l {
                    assert(after[j] == before[j]);
                    lemma_tab_order(mode, wv[q], q, wv[q], q, wv[q], q);
                    assert(tab_lt(mode, wv[before[j].pos as int], before[j].pos as int, wv[before[l as int].pos as int], before[l as int].pos as int));
                } else {
                    assert(after[j] == before[j + 1]);
                    lemma_tab_order(mode, wv[q], q, wv[q], q, wv[q], q);
                    assert(tab_lt(mode, wv[before[l as int].pos as int], before[l as int].pos as int, wv[before[j + 1].pos as int], before[j + 1].pos as int));
                }
            }
            if q != p && has_pos(before, q) {
                let j = choose|j: int| 0 <= j < before.len() && before[j].pos == q;
                if j < l {
                    assert(after[j] == before[j]);
                } else {
                    assert(j != l);
                    assert(after[j - 1] == before[j]);
                }
            }
        }
    }
}

/// Takes the tab at `p` out of the group with key `k`; where `drop_empty`
/// holds, a group left empty leaves the index, else it stays, allowed empty.
fn remove_member(
    Ghost(mode): Ghost<SortMode>,
    Ghost(wv): Ghost<Seq<TabView>>,
    gs: &mut Vec<Group>,
    p: usize,
    k: &GroupKey,
    drop_empty: bool,
    Ghost(rel): Ghost<Rel>,
    Ghost(idle): Ghost<Set<KeyView>>,
    Ghost(next): Ghost<u64>,
    Ghost(minv): Ghost<MemberInv>,
    Ghost(ginv): Ghost<GroupInv>,
)
    requires
        placed(mode, wv, old(gs)@, rel, idle),
        ids_below(old(gs)@, next),
        rel(p as int, k@),
        every_member(old(gs)@, minv),
        every_group(old(gs)@, ginv),
    ensures
        every_member(final(gs)@, minv),
        every_group(final(gs)@, ginv),
        !drop_empty ==> kept(old(gs)@, final(gs)@),
        placed(
            mode,
            wv,
            final(gs)@,
            without_pair(rel, p as int, k@),
            if drop_empty { idle } else { idle.insert(k@) },
        ),
        ids_below(final(gs)@, next),
{
    let ghost old_gs = gs@;
    let ghost rel2 = without_pair(rel, p as int, k@);
    let ghost idle2 = if drop_empty { idle } else { idle.insert(k@) };
    proof {
        assert(key_fits(mode, k@));
    }
    let i = match find_group(Ghost(mode), gs, k) {
        Ok(i) => i,
        Err(i) => {
            proof {
                let j = choose|j: int| 0 <= j < old_gs.len() && old_gs[j].key@ == k@;
                lemma_key_order(mode, k@, k@, k@);
                if j < i {
                    assert(key_lt(old_gs[j].key@, k@));
                } else {
                    assert(key_lt(k@, old_gs[j].key@));
                }
            }
            0
        },
    };
    let mut g = gs.remove(i);
    proof {
        assert(g == old_gs[i as int]);
        assert(holds(old_gs[i as int], p as int));
    }
    take_member(Ghost(mode), Ghost(wv), &mut g.members, p);
    let keep = !(drop_empty && g.members.len() == 0);
    let ghost g2 = g;
    if keep {
        gs.insert(i, g);
    }
    proof {
        let ng = gs@;
        if keep {
            assert(ng =~= old_gs.update(i as int, g2));
        } else {
            assert(ng =~= old_gs.remove(i as int));
        }
        // Group `j` is the old group at `j`, or at `j + 1` past a dropped group;
        // the group at `i` is `g2` when kept.
        assert forall|j: int| 0 <= j < ng.len() implies (keep && j == i && #[trigger] ng[j] == g2) || (
            ng[j] == old_gs[if !keep && j >= i { j + 1 } else { j }]
            && (if !keep && j >= i { j + 1 } else { j }) != i) by {}
        assert forall|j: int| 0 <= j < ng.len() implies key_fits(mode, (#[trigger] ng[j]).key@) by {
            assert(ng[j].key == old_gs[if !keep && j >= i { j + 1 } else { j }].key);
        }
        assert forall|a: int, b: int| 0 <= a < b < ng.len() implies key_lt(ng[a].key@, ng[b].key@) by {
            let oa = if !keep && a >= i { a + 1 } else { a };
            let ob = if !keep && b >= i { b + 1 } else { b };
            assert(ng[a].key == old_gs[oa].key && ng[b].key == old_gs[ob].key);
        }
        assert forall|j: int| 0 <= j < ng.len() implies members_sorted(mode, wv, (#[trigger] ng[j]).members@)
            && (ng[j].members@.len() > 0 || idle2.contains(ng[j].key@)) by {
            let oj = if !keep && j >= i { j + 1 } else { j };
            if oj != i {
                assert(ng[j] == old_gs[oj]);
            } else {
                assert(ng[j] == g2);
            }
        }
        assert forall|j: int, q: int| 0 <= j < ng.len() implies (#[trigger] holds(ng[j], q) <==> rel2(q, ng[j].key@)) by {
            let oj = if !keep && j >= i { j + 1 } else { j };
            assert(holds(old_gs[oj], q) <==> rel(q, old_gs[oj].key@));
            if oj != i {
                assert(ng[j] == old_gs[oj]);
                lemma_keys_distinct(mode, old_gs, i as int, oj);
            } else {
                assert(ng[j] == g2);
            }
        }
        assert forall|q: int, x: KeyView| #[trigger] rel2(q, x) implies 0 <= q < wv.len() && key_fits(mode, x)
            && exists|j: int| 0 <= j < ng.len() && ng[j].key@ == x by {
            let oj = choose|j: int| 0 <= j < old_gs.len() && old_gs[j].key@ == x;
            if oj == i {
                if keep {
                    assert(ng[i as int].key@ == x);
                } else {
                    assert(holds(old_gs[oj], q));
                    let l = choose|l: int| 0 <= l < old_gs[oj].members@.len() && old_gs[oj].members@[l].pos == q;
                    assert(g2.members@.len() == 0);
                    assert(q == p);
                    assert(false);
                }
            } else if !keep && oj > i {
                assert(ng[oj - 1] == old_gs[oj]);
            } else {
                assert(ng[oj] == old_gs[oj]);
            }
        }
        assert forall|a: int| 0 <= a < ng.len() implies (#[trigger] ng[a]).id < next by {
            assert(ng[a].id == old_gs[if !keep && a >= i { a + 1 } else { a }].id);
        }
        assert forall|a: int, b: int| 0 <= a < b < ng.len() implies ng[a].id != ng[b].id by {
            let oa = if !keep && a >= i { a + 1 } else { a };
            let ob = if !keep && b >= i { b + 1 } else { b };
            assert(ng[a].id == old_gs[oa].id && ng[b].id == old_gs[ob].id);
        }
        assert forall|a: int| 0 <= a < ng.len() implies ginv((#[trigger] ng[a]).key@, opt_text(ng[a].title), ng[a].id, ng[a].state) by {
            let oa = if !keep && a >= i { a + 1 } else { a };
            assert(ng[a].key == old_gs[oa].key && ng[a].title == old_gs[oa].title && ng[a].id == old_gs[oa].id && ng[a].state == old_gs[oa].state);
        }
        if !drop_empty {
            assert forall|a: int| 0 <= a < old_gs.len() implies has_group(ng, #[trigger] old_gs[a].key@) by {
                assert(ng[a].key == old_gs[a].key);
            }
        }
        assert forall|a: int, l: int| 0 <= a < ng.len() && 0 <= l < ng[a].members@.len()
            implies minv(#[trigger] ng[a].members@[l]) by {
            let oa = if !keep && a >= i { a + 1 } else { a };
            if oa != i {
                assert(ng[a] == old_gs[oa]);
            } else {
                let ms0 = old_gs[oa].members@;
                let x = choose|x: int| 0 <= x < ms0.len() && g2.members@ == ms0.remove(x);
                if l < x {
                    assert(g2.members@[l] == ms0[l]);
                } else {
                    assert(g2.members@[l] == ms0[l + 1]);
                }
            }
        }
    }
}

} // verus!

verus! {

/// Drops the group with key `k` if it is empty; the key is no longer
/// allowed an empty group.
pub(crate) fn settle(
    Ghost(mode): Ghost<SortMode>,
    Ghost(wv): Ghost<Seq<TabView>>,
    gs: &mut Vec<Group>,
    k: &GroupKey,
    Ghost(rel): Ghost<Rel>,
    Ghost(idle): Ghost<Set<KeyView>>,
    Ghost(next): Ghost<u64>,
    Ghost(minv): Ghost<MemberInv>,
    Ghost(ginv): Ghost<GroupInv>,
)
    requires
        placed(mode, wv, old(gs)@, rel, idle),
        ids_below(old(gs)@, next),
        key_fits(mode, k@),
        every_member(old(gs)@, minv),
        every_group(old(gs)@, ginv),
    ensures
        placed(mode, wv, final(gs)@, rel, idle.remove(k@)),
        ids_below(final(gs)@, next),
        every_member(final(gs)@, minv),
        every_group(final(gs)@, ginv),
{
    let ghost old_gs = gs@;
    let ghost idle2 = idle.remove(k@);
    let found = find_group(Ghost(mode), gs, k);
    let (drop, i) = match found {
        Ok(i) => (gs[i].members.len() == 0, i),
        Err(i) => (false, i),
    };
    if drop {
        gs.remove(i);
    }
    proof {
        let ng = gs@;
        if !drop {
            assert(ng == old_gs);
            assert forall|j: int| 0 <= j < ng.len() implies (#[trigger] ng[j]).members@.len() > 0
                || idle2.contains(ng[j].key@) by {
                if ng[j].key@ == k@ {
                    match found {
                        Ok(x) => {
                            if x != j {
                                lemma_keys_distinct(mode, old_gs, x as int, j);
                            }
                        },
                        Err(x) => {
                            lemma_key_order(mode, k@, k@, k@);
                            if j < x {
                                assert(key_lt(old_gs[j].key@, k@));
                            } else {
                                assert(key_lt(k@, old_gs[j].key@));
                            }
                        },
                    }
                }
            }
        } else {
            assert(ng =~= old_gs.remove(i as int));
            assert forall|q: int| !#[trigger] rel(q, k@) by {
                assert(holds(old_gs[i as int], q) <==> rel(q, old_gs[i as int].key@));
            }
            assert forall|j: int| 0 <= j < ng.len() implies #[trigger] ng[j] == old_gs[if j >= i { j + 1 } else { j }] by {}
            assert forall|j: int| 0 <= j < ng.len() implies key_fits(mode, (#[trigger] ng[j]).key@)
                && members_sorted(mode, wv, ng[j].members@) by {
                assert(ng[j] == old_gs[if j >= i { j + 1 } else { j }]);
            }
            assert forall|a: int, b: int| 0 <= a < b < ng.len() implies key_lt(ng[a].key@, ng[b].key@) by {
                assert(ng[a] == old_gs[if a >= i { a + 1 } else { a }]);
                assert(ng[b] == old_gs[if b >= i { b + 1 } else { b }]);
            }
            assert forall|j: int| 0 <= j < ng.len() implies (#[trigger] ng[j]).members@.len() > 0
                || idle2.contains(ng[j].key@) by {
                let oj = if j >= i { j + 1 } else { j };
                assert(ng[j] == old_gs[oj]);
                lemma_keys_distinct(mode, old_gs, i as int, oj);
            }
            assert forall|j: int, q: int| 0 <= j < ng.len() implies (#[trigger] holds(ng[j], q) <==> rel(q, ng[j].key@)) by {
                let oj = if j >= i { j + 1 } else { j };
                assert(ng[j] == old_gs[oj]);
                assert(holds(old_gs[oj], q) <==> rel(q, old_gs[oj].key@));
            }
            assert forall|q: int, x: KeyView| #[trigger] rel(q, x) implies 0 <= q < wv.len() && key_fits(mode, x)
                && exists|j: int| 0 <= j < ng.len() && ng[j].key@ == x by {
                let oj = choose|j: int| 0 <= j < old_gs.len() && old_gs[j].key@ == x;
                if oj > i {
                    assert(ng[oj - 1] == old_gs[oj]);
                } else {
                    assert(ng[oj] == old_gs[oj]);
                }
            }
            assert forall|a: int| 0 <= a < ng.len() implies (#[trigger] ng[a]).id < next by {
                assert(ng[a] == old_gs[if a >= i { a + 1 } else { a }]);
            }
            assert forall|a: int, b: int| 0 <= a < b < ng.len() implies ng[a].id != ng[b].id by {
                assert(ng[a] == old_gs[if a >= i { a + 1 } else { a }]);
                assert(ng[b] == old_gs[if b >= i { b + 1 } else { b }]);
            }
            assert forall|a: int| 0 <= a < ng.len() implies ginv((#[trigger] ng[a]).key@, opt_text(ng[a].title), ng[a].id, ng[a].state) by {
                assert(ng[a] == old_gs[if a >= i { a + 1 } else { a }]);
            }
            assert forall|a: int, l: int| 0 <= a < ng.len() && 0 <= l < ng[a].members@.len()
                implies minv(#[trigger] ng[a].members@[l]) by {
                assert(ng[a] == old_gs[if a >= i { a + 1 } else { a }]);
            }
        }
    }
}

} // verus!

verus! {

/// `g2` is `g` with every member position `q` moved to `f(q)`.
pub open spec fn moved_group(g: Group, g2: Group, f: spec_fn(int) -> int) -> bool {
    &&& g2.key == g.key
    &&& g2.id == g.id
    &&& g2.title == g.title
    &&& g2.state == g.state
    &&& g2.members@.len() == g.members@.len()
    &&& forall|j: int| 0 <= j < g.members@.len() ==>
        (#[trigger] g2.members@[j]).pos == f(g.members@[j].pos as int)
}

/// `gs2` is `gs` with every member position `q` moved to `f(q)`.
pub open spec fn moved(gs: Seq<Group>, gs2: Seq<Group>, f: spec_fn(int) -> int) -> bool {
    &&& gs2.len() == gs.len()
    &&& forall|i: int| 0 <= i < gs.len() ==> moved_group(gs[i], #[trigger] gs2[i], f)
}

/// The position map of a tab inserted (`up`) or removed at `from`.
pub open spec fn shift_fn(from: int, up: bool) -> spec_fn(int) -> int {
    |q: int| if up { if q >= from { q + 1 } else { q } } else { if q > from { q - 1 } else { q } }
}

/// Moves member positions at or after `from` one up, or those after `from`
/// one down.
#[verifier::loop_isolation(false)]
pub(crate) fn shift_members(gs: &mut Vec<Group>, from: usize, up: bool, Ghost(bound): Ghost<int>)
    requires
        bound < usize::MAX,
        forall|i: int, j: int| 0 <= i < old(gs)@.len() && 0 <= j < old(gs)@[i].members@.len()
            ==> #[trigger] old(gs)@[i].members@[j].pos < bound,
        !up ==> forall|i: int, j: int| 0 <= i < old(gs)@.len() && 0 <= j < old(gs)@[i].members@.len()
            ==> #[trigger] old(gs)@[i].members@[j].pos != from,
    ensures
        moved(old(gs)@, final(gs)@, shift_fn(from as int, up)),
        forall|i: int, j: int| 0 <= i < old(gs)@.len() && 0 <= j < old(gs)@[i].members@.len()
            ==> (#[trigger] final(gs)@[i].members@[j]).matches_search == old(gs)@[i].members@[j].matches_search,
{
    let ghost f = shift_fn(from as int, up);
    let ghost old_gs = gs@;
    let n = gs.len();
    let mut i: usize = 0;
    while i < n
        invariant
            n == old_gs.len(),
            gs@.len() == n,
            i <= n,
            f == shift_fn(from as int, up),
            bound < usize::MAX,
            forall|a: int, j: int| 0 <= a < old_gs.len() && 0 <= j < old_gs[a].members@.len()
                ==> #[trigger] old_gs[a].members@[j].pos < bound,
            !up ==> forall|a: int, j: int| 0 <= a < old_gs.len() && 0 <= j < old_gs[a].members@.len()
                ==> #[trigger] old_gs[a].members@[j].pos != from,
            forall|a: int| i <= a < n ==> #[trigger] gs@[a] == old_gs[a],
            forall|a: int| 0 <= a < i ==> moved_group(old_gs[a], #[trigger] gs@[a], f),
            forall|a: int, j: int| 0 <= a < i && 0 <= j < old_gs[a].members@.len()
                ==> (#[trigger] gs@[a].members@[j]).matches_search == old_gs[a].members@[j].matches_search,
        decreases n - i,
    {
        let mut g = Group {
            id: 0,
            key: GroupKey::Unpinned,
            title: None,
            members: Vec::new(),
            state: Lifecycle::Active,
        };
        gs.set_and_swap(i, &mut g);
        assert(g == old_gs[i as int]);
        let m = g.members.len();
        let mut j: usize = 0;
        while j < m
            invariant
                m == g.members@.len(),
                m == old_gs[i as int].members@.len(),
                g.key == old_gs[i as int].key,
                g.id == old_gs[i as int].id,
                g.title == old_gs[i as int].title,
                g.state == old_gs[i as int].state,
                forall|l: int| 0 <= l < j ==> (#[trigger] g.members@[l]).matches_search
                    == old_gs[i as int].members@[l].matches_search,
                j <= m,
                f == shift_fn(from as int, up),
                bound < usize::MAX,
                forall|l: int| 0 <= l < m ==> #[trigger] old_gs[i as int].members@[l].pos < bound,
                !up ==> forall|l: int| 0 <= l < m ==> #[trigger] old_gs[i as int].members@[l].pos != from,
                forall|l: int| j <= l < m ==> #[trigger] g.members@[l] == old_gs[i as int].members@[l],
                forall|l: int| 0 <= l < j ==> (#[trigger] g.members@[l]).pos == f(old_gs[i as int].members@[l].pos as int),
            decreases m - j,
        {
            let q = g.members[j].pos;
            let nq = if up {
                if q >= from { q + 1 } else { q }
            } else {
                if q > from { q - 1 } else { q }
            };
            let nm = Member { pos: nq, state: g.members[j].state, matches_search: g.members[j].matches_search };
            g.members.set(j, nm);
            j = j + 1;
        }
        gs.set_and_swap(i, &mut g);
        i = i + 1;
    }
}

} // verus!

verus! {

/// The tab order reads positions only through their order.
proof fn lemma_tab_lt_positions(mode: SortMode, x: TabView, pa: int, y: TabView, pb: int, qa: int, qb: int)
    requires
        (pa < pb) == (qa < qb),
        (pa > pb) == (qa > qb),
    ensures
        tab_lt(mode, x, pa, y, pb) == tab_lt(mode, x, qa, y, qb),
{
}

/// Moving every placed tab by an order-keeping map `f` (with inverse `g` on
/// its image) to a window where it reads the same keeps the index placed.
pub(crate) proof fn lemma_placed_moved(
    mode: SortMode,
    w: Seq<TabView>,
    w2: Seq<TabView>,
    gs: Seq<Group>,
    gs2: Seq<Group>,
    rel: Rel,
    rel2: Rel,
    idle: Set<KeyView>,
    f: spec_fn(int) -> int,
    g: spec_fn(int) -> int,
)
    requires
        placed(mode, w, gs, rel, idle),
        moved(gs, gs2, f),
        forall|q: int, k: KeyView| #[trigger] rel(q, k) ==> 0 <= f(q) < w2.len() && w2[f(q)] == w[q]
            && rel2(f(q), k),
        forall|a: int, ka: KeyView, b: int, kb: KeyView|
            #[trigger] rel(a, ka) && #[trigger] rel(b, kb) && a < b ==> f(a) < f(b),
        forall|q: int, k: KeyView| #[trigger] rel2(q, k) ==> rel(g(q), k) && f(g(q)) == q,
    ensures
        placed(mode, w2, gs2, rel2, idle),
{
    assert forall|i: int| 0 <= i < gs2.len() implies key_fits(mode, (#[trigger] gs2[i]).key@) by {
        assert(moved_group(gs[i], gs2[i], f));
    }
    assert forall|a: int, b: int| 0 <= a < b < gs2.len() implies key_lt(gs2[a].key@, gs2[b].key@) by {
        assert(moved_group(gs[a], gs2[a], f));
        assert(moved_group(gs[b], gs2[b], f));
    }
    assert forall|i: int| 0 <= i < gs2.len() implies members_sorted(mode, w2, (#[trigger] gs2[i]).members@)
        && (gs2[i].members@.len() > 0 || idle.contains(gs2[i].key@)) by {
        assert(moved_group(gs[i], gs2[i], f));
        let ms = gs[i].members@;
        let ms2 = gs2[i].members@;
        let k = gs[i].key@;
        assert(members_sorted(mode, w, ms));
        assert forall|j: int| 0 <= j < ms2.len() implies (#[trigger] ms2[j]).pos < w2.len() by {
            assert(holds(gs[i], ms[j].pos as int));
            assert(rel(ms[j].pos as int, k));
        }
        assert forall|a: int, b: int| 0 <= a < b < ms2.len() implies tab_lt(
            mode,
            w2[ms2[a].pos as int],
            ms2[a].pos as int,
            w2[ms2[b].pos as int],
            ms2[b].pos as int,
        ) by {
            let pa = ms[a].pos as int;
            let pb = ms[b].pos as int;
            assert(ms2[a].pos == f(pa));
            assert(ms2[b].pos == f(pb));
            assert(holds(gs[i], pa));
            assert(holds(gs[i], pb));
            assert(rel(pa, k));
            assert(rel(pb, k));
            assert(tab_lt(mode, w[pa], pa, w[pb], pb));
            lemma_tab_order(mode, w[pa], pa, w[pa], pa, w[pa], pa);
            assert(pa != pb);
            if pa < pb {
                assert(f(pa) < f(pb));
            } else {
                assert(f(pb) < f(pa));
            }
            lemma_tab_lt_positions(mode, w[pa], pa, w[pb], pb, f(pa), f(pb));
        }
    }
    assert forall|i: int, q: int| 0 <= i < gs2.len() implies (#[trigger] holds(gs2[i], q) <==> rel2(q, gs2[i].key@)) by {
        assert(moved_group(gs[i], gs2[i], f));
        let k = gs[i].key@;
        let ms = gs[i].members@;
        let ms2 = gs2[i].members@;
        if holds(gs2[i], q) {
            let j = choose|j: int| 0 <= j < ms2.len() && ms2[j].pos == q;
            let p = ms[j].pos as int;
            assert(ms2[j].pos == f(p));
            assert(holds(gs[i], p));
            assert(rel(p, k));
        }
        if rel2(q, k) {
            let p = g(q);
            assert(rel(p, k));
            assert(holds(gs[i], p));
            let j = choose|j: int| 0 <= j < ms.len() && ms[j].pos == p;
            assert(ms2[j].pos == f(p));
        }
    }
    assert forall|q: int, x: KeyView| #[trigger] rel2(q, x) implies 0 <= q < w2.len() && key_fits(mode, x)
        && exists|j: int| 0 <= j < gs2.len() && gs2[j].key@ == x by {
        let p = g(q);
        assert(rel(p, x));
        let j = choose|j: int| 0 <= j < gs.len() && gs[j].key@ == x;
        assert(moved_group(gs[j], gs2[j], f));
    }
}

} // verus!

verus! {

/// `placed` reads `rel` pointwise only.
pub(crate) proof fn lemma_placed_ext(mode: SortMode, w: Seq<TabView>, gs: Seq<Group>, r1: Rel, r2: Rel, idle: Set<KeyView>)
    requires
        placed(mode, w, gs, r1, idle),
        forall|q: int, k: KeyView| #[trigger] r1(q, k) == r2(q, k),
    ensures
        placed(mode, w, gs, r2, idle),
{
    let id = |q: int| q;
    assert forall|i: int| 0 <= i < gs.len() implies moved_group(gs[i], #[trigger] gs[i], id) by {}
    lemma_placed_moved(mode, w, w, gs, gs, r1, r2, idle, id, id);
}

/// A window position that holds no membership can take another tab.
pub(crate) proof fn lemma_placed_replace(mode: SortMode, w: Seq<TabView>, gs: Seq<Group>, rel: Rel, idle: Set<KeyView>, p: int, t: TabView)
    requires
        placed(mode, w, gs, rel, idle),
        0 <= p < w.len(),
        forall|k: KeyView| !#[trigger] rel(p, k),
    ensures
        placed(mode, w.update(p, t), gs, rel, idle),
{
    let id = |q: int| q;
    assert forall|i: int| 0 <= i < gs.len() implies moved_group(gs[i], #[trigger] gs[i], id) by {}
    lemma_placed_moved(mode, w, w.update(p, t), gs, gs, rel, rel, idle, id, id);
}

} // verus!

verus! {

pub open spec fn with_tab(rel: Rel, mode: SortMode, p: int, t: TabView) -> Rel {
    |q: int, k: KeyView| rel(q, k) || (q == p && has_key(mode, t, k))
}

pub open spec fn without_tab(rel: Rel, p: int) -> Rel {
    |q: int, k: KeyView| rel(q, k) && q != p
}

pub open spec fn key_views(ks: Seq<GroupKey>) -> Seq<KeyView> {
    ks.map_values(|k: GroupKey| k@)
}

/// Places the tab at `p` in every group it belongs to.
pub(crate) fn place_tab(
    mode: SortMode,
    w: &Vec<TabInfo>,
    gs: &mut Vec<Group>,
    next_id: &mut u64,
    p: usize,
    state: Lifecycle,
    matches: bool,
    now: u64,
    bulk: bool,
    Ghost(rel): Ghost<Rel>,
    Ghost(idle): Ghost<Set<KeyView>>,
    Ghost(minv): Ghost<MemberInv>,
    Ghost(ginv): Ghost<GroupInv>,
)
    requires
        placed(mode, window_view(w@), old(gs)@, rel, idle),
        ids_below(old(gs)@, *old(next_id)),
        bulk ==> forall|q: int, k: KeyView| #[trigger] rel(q, k) ==> q < p,
        every_member(old(gs)@, minv),
        every_group(old(gs)@, ginv),
        minv(Member { pos: p, state, matches_search: matches }),
        forall|k: KeyView, id: u64| has_key(mode, w@[p as int]@, k) && !has_group(old(gs)@, k) && id >= *old(next_id)
            ==> #[trigger] ginv(k, title_of(mode, k, now), id, state),
        p < w@.len(),
        tags_distinct(w@[p as int]@.tags),
        forall|k: KeyView| !#[trigger] rel(p as int, k),
        *old(next_id) + key_count(mode, w@[p as int]@) <= u64::MAX,
    ensures
        placed(mode, window_view(w@), final(gs)@, with_tab(rel, mode, p as int, w@[p as int]@), idle),
        ids_below(final(gs)@, *final(next_id)),
        *old(next_id) <= *final(next_id) <= *old(next_id) + key_count(mode, w@[p as int]@),
        every_member(final(gs)@, minv),
        every_group(final(gs)@, ginv),
        kept(old(gs)@, final(gs)@),
{
    let ghost wv = window_view(w@);
    let ghost t = w@[p as int]@;
    let mut keys = keys_for(mode, &w[p]);
    let ghost all = key_views(keys@);
    let ghost start = *next_id;
    let ghost gs_start = gs@;
    proof {
        assert forall|k: KeyView| has_key(mode, t, k) implies exists|i: int| 0 <= i < all.len() && all[i] == k by {
            let i = choose|i: int| 0 <= i < keys@.len() && keys@[i]@ == k;
            assert(all[i] == keys@[i]@);
        }
    }
    while keys.len() > 0
        invariant
            wv == window_view(w@),
            t == w@[p as int]@,
            t == wv[p as int],
            p < w@.len(),
            all.len() == key_count(mode, t),
            forall|i: int| 0 <= i < all.len() ==> has_key(mode, t, #[trigger] all[i]),
            forall|i: int| 0 <= i < all.len() ==> key_fits(mode, #[trigger] all[i]),
            forall|k: KeyView| has_key(mode, t, k) ==> exists|i: int| 0 <= i < all.len() && all[i] == k,
            forall|i: int, j: int| 0 <= i < j < all.len() ==> all[i] != all[j],
            keys@.len() <= all.len(),
            forall|i: int| 0 <= i < keys@.len() ==> #[trigger] keys@[i]@ == all[i],
            placed(mode, wv, gs@, |q: int, k: KeyView| rel(q, k) || (q == p && exists|i: int|
                keys@.len() <= i < all.len() && all[i] == k), idle),
            forall|k: KeyView| !#[trigger] rel(p as int, k),
            ids_below(gs@, *next_id),
            every_member(gs@, minv),
            every_group(gs@, ginv),
            minv(Member { pos: p, state, matches_search: matches }),
            forall|k: KeyView, id: u64| has_key(mode, t, k) && !has_group(gs_start, k) && id >= start
                ==> #[trigger] ginv(k, title_of(mode, k, now), id, state),
            kept(gs_start, gs@),
            bulk ==> forall|q: int, k: KeyView| #[trigger] rel(q, k) ==> q < p,
            start <= *next_id <= start + (all.len() - keys@.len()),
            start + key_count(mode, t) <= u64::MAX,
        decreases keys@.len(),
    {
        let ghost r0 = |q: int, k: KeyView| rel(q, k) || (q == p && exists|i: int|
            keys@.len() <= i < all.len() && all[i] == k);
        let k = keys.pop().unwrap();
        let ghost n = keys@.len();
        proof {
            assert(k@ == all[n as int]);
            if r0(p as int, k@) {
                let i = choose|i: int| n + 1 <= i < all.len() && all[i] == k@;
                assert(all[i] != all[n as int]);
            }
        }
        proof {
            if !has_group(gs@, k@) {
                if has_group(gs_start, k@) {
                    let j = choose|j: int| 0 <= j < gs_start.len() && gs_start[j].key@ == k@;
                    assert(has_group(gs@, gs_start[j].key@));
                }
                assert(has_key(mode, t, k@));
                assert(ginv(k@, title_of(mode, k@, now), *next_id, state));
            }
        }
        let ghost gs_before = gs@;
        proof {
            if bulk {
                assert forall|q: int| #[trigger] r0(q, k@) implies q < p by {
                    if !rel(q, k@) {
                        let i = choose|i: int| n + 1 <= i < all.len() && all[i] == k@;
                        assert(all[i] != all[n as int]);
                    }
                }
            }
        }
        add_member(mode, w, gs, next_id, p, k, state, matches, now, bulk, Ghost(r0), Ghost(idle), Ghost(minv), Ghost(ginv));
        proof {
            assert forall|j: int| 0 <= j < gs_start.len() implies has_group(gs@, #[trigger] gs_start[j].key@) by {
                assert(has_group(gs_before, gs_start[j].key@));
                let i = choose|i: int| 0 <= i < gs_before.len() && gs_before[i].key@ == gs_start[j].key@;
                assert(has_group(gs@, gs_before[i].key@));
            }
            let r1 = |q: int, k2: KeyView| rel(q, k2) || (q == p && exists|i: int|
                n <= i < all.len() && all[i] == k2);
            assert forall|q: int, k2: KeyView| #[trigger] with_pair(r0, p as int, all[n as int])(q, k2) == r1(q, k2) by {
                if q == p && k2 == all[n as int] {
                    assert(r1(q, k2));
                }
                if r1(q, k2) && !rel(q, k2) {
                    let i = choose|i: int| n <= i < all.len() && all[i] == k2;
                    if i != n {
                        assert(r0(q, k2));
                    }
                }
            }
            lemma_placed_ext(mode, wv, gs@, with_pair(r0, p as int, all[n as int]), r1, idle);
        }
    }
    proof {
        let r0 = |q: int, k: KeyView| rel(q, k) || (q == p && exists|i: int|
            0 <= i < all.len() && all[i] == k);
        assert forall|q: int, k: KeyView| #[trigger] r0(q, k) == with_tab(rel, mode, p as int, t)(q, k) by {
            if q == p && has_key(mode, t, k) {
                let i = choose|i: int| 0 <= i < all.len() && all[i] == k;
            }
        }
        lemma_placed_ext(mode, wv, gs@, r0, with_tab(rel, mode, p as int, t), idle);
    }
}

} // verus!

verus! {

pub open spec fn key_set(mode: SortMode, t: TabView) -> Set<KeyView> {
    Set::new(|k: KeyView| has_key(mode, t, k))
}

/// Takes the tab at `p`, whose memberships are those of `t` (their keys are
/// `keys`), out of every group.
pub(crate) fn unplace_tab(
    Ghost(mode): Ghost<SortMode>,
    Ghost(wv): Ghost<Seq<TabView>>,
    gs: &mut Vec<Group>,
    p: usize,
    keys: &Vec<GroupKey>,
    Ghost(t): Ghost<TabView>,
    drop_empty: bool,
    Ghost(rel): Ghost<Rel>,
    Ghost(idle): Ghost<Set<KeyView>>,
    Ghost(next): Ghost<u64>,
    Ghost(minv): Ghost<MemberInv>,
    Ghost(ginv): Ghost<GroupInv>,
)
    requires
        placed(mode, wv, old(gs)@, rel, idle),
        ids_below(old(gs)@, next),
        every_member(old(gs)@, minv),
        every_group(old(gs)@, ginv),
        forall|k: KeyView| #[trigger] rel(p as int, k) == has_key(mode, t, k),
        forall|i: int| 0 <= i < keys@.len() ==> has_key(mode, t, #[trigger] keys@[i]@),
        forall|k: KeyView| has_key(mode, t, k) ==> exists|i: int| 0 <= i < keys@.len() && keys@[i]@ == k,
        forall|i: int, j: int| 0 <= i < j < keys@.len() ==> keys@[i]@ != keys@[j]@,
    ensures
        placed(
            mode,
            wv,
            final(gs)@,
            without_tab(rel, p as int),
            if drop_empty { idle } else { idle + key_set(mode, t) },
        ),
        ids_below(final(gs)@, next),
        every_member(final(gs)@, minv),
        every_group(final(gs)@, ginv),
        !drop_empty ==> kept(old(gs)@, final(gs)@),
{
    let ghost gs_start = gs@;
    let n = keys.len();
    let mut i: usize = 0;
    while i < n
        invariant
            n == keys@.len(),
            i <= n,
            forall|k: KeyView| #[trigger] rel(p as int, k) == has_key(mode, t, k),
            forall|a: int| 0 <= a < keys@.len() ==> has_key(mode, t, #[trigger] keys@[a]@),
            forall|a: int, b: int| 0 <= a < b < keys@.len() ==> keys@[a]@ != keys@[b]@,
            placed(
                mode,
                wv,
                gs@,
                |q: int, k: KeyView| rel(q, k) && !(q == p && exists|a: int| 0 <= a < i && keys@[a]@ == k),
                if drop_empty { idle } else { idle + Set::new(|k: KeyView| exists|a: int| 0 <= a < i && keys@[a]@ == k) },
            ),
            ids_below(gs@, next),
            every_member(gs@, minv),
            every_group(gs@, ginv),
            !drop_empty ==> kept(gs_start, gs@),
        decreases n - i,
    {
        let ghost gs_before = gs@;
        let ghost r0 = |q: int, k: KeyView| rel(q, k) && !(q == p && exists|a: int| 0 <= a < i && keys@[a]@ == k);
        let ghost i0 = if drop_empty { idle } else { idle + Set::new(|k: KeyView| exists|a: int| 0 <= a < i && keys@[a]@ == k) };
        proof {
            assert(rel(p as int, keys@[i as int]@));
            if exists|a: int| 0 <= a < i && keys@[a]@ == keys@[i as int]@ {
                let a = choose|a: int| 0 <= a < i && keys@[a]@ == keys@[i as int]@;
                assert(keys@[a]@ != keys@[i as int]@);
            }
            assert(r0(p as int, keys@[i as int]@));
        }
        remove_member(Ghost(mode), Ghost(wv), gs, p, &keys[i], drop_empty, Ghost(r0), Ghost(i0), Ghost(next), Ghost(minv), Ghost(ginv));
        proof {
            let r1 = |q: int, k: KeyView| rel(q, k) && !(q == p && exists|a: int| 0 <= a < i + 1 && keys@[a]@ == k);
            assert forall|q: int, k: KeyView| #[trigger] without_pair(r0, p as int, keys@[i as int]@)(q, k) == r1(q, k) by {
                if q == p && exists|a: int| 0 <= a < i + 1 && keys@[a]@ == k {
                    let a = choose|a: int| 0 <= a < i + 1 && keys@[a]@ == k;
                    if a < i {
                        assert(!r0(q, k));
                    }
                }
            }
            lemma_placed_ext(mode, wv, gs@, without_pair(r0, p as int, keys@[i as int]@), r1, if drop_empty { i0 } else { i0.insert(keys@[i as int]@) });
            if !drop_empty {
                assert(i0.insert(keys@[i as int]@) =~= idle + Set::new(|k: KeyView| exists|a: int| 0 <= a < i + 1 && keys@[a]@ == k));
                assert forall|j: int| 0 <= j < gs_start.len() implies has_group(gs@, #[trigger] gs_start[j].key@) by {
                    assert(has_group(gs_before, gs_start[j].key@));
                    let x = choose|x: int| 0 <= x < gs_before.len() && gs_before[x].key@ == gs_start[j].key@;
                    assert(has_group(gs@, gs_before[x].key@));
                }
            }
        }
        i = i + 1;
    }
    proof {
        let r0 = |q: int, k: KeyView| rel(q, k) && !(q == p && exists|a: int| 0 <= a < n && keys@[a]@ == k);
        assert forall|q: int, k: KeyView| #[trigger] r0(q, k) == without_tab(rel, p as int)(q, k) by {
            if q == p && rel(q, k) {
                assert(has_key(mode, t, k));
                let a = choose|a: int| 0 <= a < keys@.len() && keys@[a]@ == k;
            }
        }
        if !drop_empty {
            assert(Set::new(|k: KeyView| exists|a: int| 0 <= a < n && keys@[a]@ == k) =~= key_set(mode, t));
        }
        lemma_placed_ext(mode, wv, gs@, r0, without_tab(rel, p as int), if drop_empty { idle } else { idle + key_set(mode, t) });
    }
}

} // verus!

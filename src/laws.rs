//! What holds of the engine across operations.
use vstd::prelude::*;
use crate::keys::{KeyView, SortMode, TabView, key_fits, key_lt, lemma_key_order, lemma_tab_order, tab_lt};
use crate::index::{Group, Rel, placed, holds, members_sorted, kept, has_group};
use crate::engine::{Groups, grouped, ids_kept, Departure, departures};

verus! {

/// What a reader of the index sees: each group's key and its members'
/// window positions, in order.
pub open spec fn layout(gs: Seq<Group>) -> Seq<(KeyView, Seq<int>)> {
    gs.map_values(|g: Group| (g.key@, g.members@.map_values(|m: crate::index::Member| m.pos as int)))
}

/// Two sequences, each strictly sorted by one asymmetric order, that hold
/// the same elements are equal.
proof fn lemma_sorted_unique<A>(s1: Seq<A>, s2: Seq<A>, lt: spec_fn(A, A) -> bool)
    requires
        forall|i: int, j: int| 0 <= i < j < s1.len() ==> lt(s1[i], s1[j]),
        forall|i: int, j: int| 0 <= i < j < s2.len() ==> lt(s2[i], s2[j]),
        forall|x: A| s1.contains(x) <==> s2.contains(x),
        forall|a: A, b: A| #[trigger] lt(a, b) ==> !lt(b, a),
    ensures
        s1 == s2,
    decreases s1.len(),
{
    if s1.len() == 0 {
        if s2.len() > 0 {
            assert(s2.contains(s2[0]));
        }
        assert(s1 =~= s2);
    } else {
        assert(s1.contains(s1[0]));
        assert(s2.len() > 0);
        assert(s2.contains(s2[0]));
        if s1[0] != s2[0] {
            let j = choose|j: int| 0 <= j < s2.len() && s2[j] == s1[0];
            let i = choose|i: int| 0 <= i < s1.len() && s1[i] == s2[0];
            assert(lt(s2[0], s1[0]));
            assert(lt(s1[0], s2[0]));
        }
        let t1 = s1.drop_first();
        let t2 = s2.drop_first();
        assert forall|x: A| t1.contains(x) <==> t2.contains(x) by {
            if t1.contains(x) {
                let i = choose|i: int| 0 <= i < t1.len() && t1[i] == x;
                assert(lt(s1[0], s1[i + 1]));
                assert(s2.contains(x));
                let j = choose|j: int| 0 <= j < s2.len() && s2[j] == x;
                if j == 0 {
                    assert(lt(x, x));
                }
                assert(t2[j - 1] == x);
            }
            if t2.contains(x) {
                let j = choose|j: int| 0 <= j < t2.len() && t2[j] == x;
                assert(lt(s2[0], s2[j + 1]));
                assert(s1.contains(x));
                let i = choose|i: int| 0 <= i < s1.len() && s1[i] == x;
                if i == 0 {
                    assert(lt(x, x));
                }
                assert(t1[i - 1] == x);
            }
        }
        lemma_sorted_unique(t1, t2, lt);
        assert(s1 =~= seq![s1[0]] + t1);
        assert(s2 =~= seq![s2[0]] + t2);
    }
}

/// An index that holds the memberships of `rel`, with no empty group, is
/// determined by `rel`: keys, members and both orders.
proof fn lemma_placed_unique(mode: SortMode, w: Seq<TabView>, gs1: Seq<Group>, gs2: Seq<Group>, rel: Rel)
    requires
        placed(mode, w, gs1, rel, Set::empty()),
        placed(mode, w, gs2, rel, Set::empty()),
    ensures
        layout(gs1) == layout(gs2),
{
    let ks1 = gs1.map_values(|g: Group| g.key@);
    let ks2 = gs2.map_values(|g: Group| g.key@);
    let klt = |a: KeyView, b: KeyView| key_lt(a, b) && key_fits(mode, a) && key_fits(mode, b);
    assert forall|a: KeyView, b: KeyView| #[trigger] klt(a, b) implies !klt(b, a) by {
        lemma_key_order(mode, a, b, a);
    }
    assert forall|k: KeyView| ks1.contains(k) implies ks2.contains(k) by {
        let i = choose|i: int| 0 <= i < ks1.len() && ks1[i] == k;
        assert(gs1[i].members@.len() > 0);
        assert(holds(gs1[i], gs1[i].members@[0].pos as int));
        assert(rel(gs1[i].members@[0].pos as int, k));
        let j = choose|j: int| 0 <= j < gs2.len() && gs2[j].key@ == k;
        assert(ks2[j] == k);
    }
    assert forall|k: KeyView| ks2.contains(k) implies ks1.contains(k) by {
        let i = choose|i: int| 0 <= i < ks2.len() && ks2[i] == k;
        assert(gs2[i].members@.len() > 0);
        assert(holds(gs2[i], gs2[i].members@[0].pos as int));
        assert(rel(gs2[i].members@[0].pos as int, k));
        let j = choose|j: int| 0 <= j < gs1.len() && gs1[j].key@ == k;
        assert(ks1[j] == k);
    }
    assert forall|i: int, j: int| 0 <= i < j < ks1.len() implies klt(ks1[i], ks1[j]) by {
        assert(key_fits(mode, gs1[i].key@) && key_fits(mode, gs1[j].key@));
    }
    assert forall|i: int, j: int| 0 <= i < j < ks2.len() implies klt(ks2[i], ks2[j]) by {
        assert(key_fits(mode, gs2[i].key@) && key_fits(mode, gs2[j].key@));
    }
    lemma_sorted_unique(ks1, ks2, klt);
    let plt = |a: int, b: int| tab_lt(mode, w[a], a, w[b], b);
    assert forall|a: int, b: int| #[trigger] plt(a, b) implies !plt(b, a) by {
        lemma_tab_order(mode, w[a], a, w[b], b, w[a], a);
    }
    assert forall|i: int| 0 <= i < gs1.len() implies #[trigger] layout(gs1)[i] == layout(gs2)[i] by {
        assert(ks1[i] == ks2[i]);
        let k = gs1[i].key@;
        let ps1 = gs1[i].members@.map_values(|m: crate::index::Member| m.pos as int);
        let ps2 = gs2[i].members@.map_values(|m: crate::index::Member| m.pos as int);
        assert(members_sorted(mode, w, gs1[i].members@));
        assert(members_sorted(mode, w, gs2[i].members@));
        assert forall|q: int| ps1.contains(q) <==> ps2.contains(q) by {
            assert(holds(gs1[i], q) <==> rel(q, k));
            assert(holds(gs2[i], q) <==> rel(q, k));
            if ps1.contains(q) {
                let j = choose|j: int| 0 <= j < ps1.len() && ps1[j] == q;
                assert(holds(gs1[i], q));
                let l = choose|l: int| 0 <= l < gs2[i].members@.len() && gs2[i].members@[l].pos == q;
                assert(ps2[l] == q);
            }
            if ps2.contains(q) {
                let j = choose|j: int| 0 <= j < ps2.len() && ps2[j] == q;
                assert(holds(gs2[i], q));
                let l = choose|l: int| 0 <= l < gs1[i].members@.len() && gs1[i].members@[l].pos == q;
                assert(ps1[l] == q);
            }
        }
        assert forall|a: int, b: int| 0 <= a < b < ps1.len() implies plt(ps1[a], ps1[b]) by {}
        assert forall|a: int, b: int| 0 <= a < b < ps2.len() implies plt(ps2[a], ps2[b]) by {}
        lemma_sorted_unique(ps1, ps2, plt);
    }
    assert(layout(gs1) =~= layout(gs2));
}

/// Between operations the groups are strictly sorted by the mode's group
/// order, each group's tabs strictly by the mode's tab order, and no group
/// is empty.
pub proof fn lemma_sorted_and_nonempty(g: Groups)
    requires
        g.well_formed(),
    ensures
        forall|i: int, j: int| 0 <= i < j < g@.groups.len() ==> key_lt(g@.groups[i].key@, g@.groups[j].key@),
        forall|i: int| 0 <= i < g@.groups.len() ==> members_sorted(g@.mode, g@.window, #[trigger] g@.groups[i].members@),
        forall|i: int| 0 <= i < g@.groups.len() ==> (#[trigger] g@.groups[i]).members@.len() > 0,
{
}

/// The layout is a function of the sort mode and the window: however an
/// engine got there, and a fresh one built from the same window, agree.
pub proof fn lemma_layout_determined(x: Groups, y: Groups)
    requires
        x.well_formed(),
        y.well_formed(),
        x@.mode == y@.mode,
        x@.window == y@.window,
    ensures
        layout(x@.groups) == layout(y@.groups),
{
    lemma_placed_unique(x@.mode, x@.window, x@.groups, y@.groups, grouped(x@.mode, x@.window));
}

/// Inserting a tab and then removing it again restores the index: the same
/// groups, with the same ids, members and orders.
pub proof fn lemma_insert_then_remove(before: Groups, mid: Groups, after: Groups, index: int, t: TabView)
    requires
        before.well_formed(),
        mid.well_formed(),
        after.well_formed(),
        0 <= index <= before@.window.len(),
        mid@.mode == before@.mode,
        after@.mode == mid@.mode,
        mid@.window == before@.window.insert(index, t),
        after@.window == mid@.window.remove(index),
        kept(before@.groups, mid@.groups),
        ids_kept(before@.groups, mid@.groups),
        ids_kept(mid@.groups, after@.groups),
    ensures
        layout(after@.groups) == layout(before@.groups),
        after@.groups.len() == before@.groups.len(),
        forall|i: int| 0 <= i < after@.groups.len() ==> (#[trigger] after@.groups[i]).id == before@.groups[i].id,
{
    assert(after@.window =~= before@.window);
    lemma_layout_determined(after, before);
    let ga = after@.groups;
    let gb = before@.groups;
    let gm = mid@.groups;
    assert(layout(ga).len() == ga.len() && layout(gb).len() == gb.len());
    assert forall|i: int| 0 <= i < ga.len() implies (#[trigger] ga[i]).id == gb[i].id by {
        assert(layout(ga)[i].0 == ga[i].key@);
        assert(layout(gb)[i].0 == gb[i].key@);
        assert(has_group(gm, gb[i].key@));
        let x = choose|x: int| 0 <= x < gm.len() && gm[x].key@ == gb[i].key@;
        assert(gm[x].id == gb[i].id);
        assert(ga[i].id == gm[x].id);
    }
}

/// Switching the sort mode to `a`, to `b`, and back to `a` leaves the layout
/// that a fresh engine built under `a` from the same window has.
pub proof fn lemma_sort_round_trip(start: Groups, s1: Groups, s2: Groups, s3: Groups, fresh: Groups, a: SortMode, b: SortMode)
    requires
        start.well_formed(),
        s1.well_formed(),
        s2.well_formed(),
        s3.well_formed(),
        fresh.well_formed(),
        s1@.mode == a && s1@.window == start@.window,
        s2@.mode == b && s2@.window == s1@.window,
        s3@.mode == a && s3@.window == s2@.window,
        fresh@.mode == a && fresh@.window == start@.window,
    ensures
        layout(s3@.groups) == layout(fresh@.groups),
        layout(s3@.groups) == layout(s1@.groups),
{
    lemma_layout_determined(s3, fresh);
    lemma_layout_determined(s3, s1);
}

/// Each departure in the departures of `before` at `index` lies in a group
/// that held the tab, at `index`.
proof fn lemma_departure_source(gs: Seq<Group>, p: int, stays: spec_fn(KeyView) -> bool, x: int)
    requires
        0 <= x < departures(gs, p, stays).len(),
    ensures
        exists|k: int| 0 <= k < gs.len() && holds(gs[k], p) && gs[k].id == departures(gs, p, stays)[x].group
            && (departures(gs, p, stays)[x].group_gone ==> gs[k].members@.len() == 1 && !stays(gs[k].key@)),
    decreases gs.len(),
{
    let r = departures(gs.drop_last(), p, stays);
    if x < r.len() {
        lemma_departure_source(gs.drop_last(), p, stays, x);
        let k = choose|k: int| 0 <= k < gs.drop_last().len() && holds(gs.drop_last()[k], p)
            && gs.drop_last()[k].id == r[x].group
            && (r[x].group_gone ==> gs.drop_last()[k].members@.len() == 1 && !stays(gs.drop_last()[k].key@));
        assert(gs[k] == gs.drop_last()[k]);
    } else {
        assert(gs[gs.len() - 1] == gs.last());
    }
}

/// After a tab is removed, a group its departures mark as gone is no longer
/// in the index.
pub proof fn lemma_removed_groups_gone(before: Groups, after: Groups, index: int, gone: Seq<Departure>)
    requires
        before.well_formed(),
        after.well_formed(),
        0 <= index < before@.window.len(),
        after@.mode == before@.mode,
        after@.window == before@.window.remove(index),
        ids_kept(before@.groups, after@.groups),
        gone == departures(before@.groups, index, |k: KeyView| false),
    ensures
        forall|x: int, i: int| 0 <= x < gone.len() && gone[x].group_gone && 0 <= i < after@.groups.len()
            ==> #[trigger] after@.groups[i].id != #[trigger] gone[x].group,
{
    let mode = before@.mode;
    let w0 = before@.window;
    let w1 = after@.window;
    let g0 = before@.groups;
    let g1 = after@.groups;
    assert forall|x: int, i: int| 0 <= x < gone.len() && gone[x].group_gone && 0 <= i < g1.len()
        implies #[trigger] g1[i].id != #[trigger] gone[x].group by {
        lemma_departure_source(g0, index, |k: KeyView| false, x);
        let k = choose|k: int| 0 <= k < g0.len() && holds(g0[k], index) && g0[k].id == gone[x].group
            && (gone[x].group_gone ==> g0[k].members@.len() == 1);
        if g1[i].id == gone[x].group {
            // The group at `i` is not empty: a tab of the new window has its key.
            assert(g1[i].members@.len() > 0);
            let q1 = g1[i].members@[0].pos as int;
            assert(holds(g1[i], q1));
            assert(grouped(mode, w1)(q1, g1[i].key@));
            let q0 = if q1 < index { q1 } else { q1 + 1 };
            assert(w1[q1] == w0[q0]);
            assert(grouped(mode, w0)(q0, g1[i].key@));
            let j = choose|j: int| 0 <= j < g0.len() && g0[j].key@ == g1[i].key@;
            assert(g1[i].id == g0[j].id);
            if j != k {
                assert(g0[j].id != g0[k].id);
            }
            assert(holds(g0[k], q0));
            let a = choose|a: int| 0 <= a < g0[k].members@.len() && g0[k].members@[a].pos == q0;
            let b = choose|b: int| 0 <= b < g0[k].members@.len() && g0[k].members@[b].pos == index;
            assert(a == 0 && b == 0);
        }
    }
}

} // verus!

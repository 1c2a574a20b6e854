//! Field changes of a tab, and the messages that drive the engine.
use vstd::prelude::*;
use crate::keys::{TabInfo, TabView, tags_distinct, key_count, text_or_empty};
use crate::text::compare_text;
use crate::keys::{KeyView, has_key};
use crate::index::kept;
use crate::engine::{Groups, Departure, departures, ids_kept, placed_live, fresh_groups};

verus! {

/// One change to a tab's fields.
pub enum TabChange {
    Title { new_title: Option<String> },
    /// A new url, with its site key from the url shortener.
    Url { new_url: Option<String>, url_key: String },
    Pinned { pinned: bool },
    Unloaded { unloaded: bool },
    Focused { at: u64 },
    /// Joins a tag the tab does not have.
    AddedToTag { tag: String },
    /// Leaves a tag the tab has.
    RemovedFromTag { tag_name: String },
}

pub enum ChangeView {
    Title(Seq<char>),
    Url(Seq<char>, Seq<char>),
    Pinned(bool),
    Unloaded(bool),
    Focused(u64),
    AddedToTag(Seq<char>),
    RemovedFromTag(Seq<char>),
}

impl View for TabChange {
    type V = ChangeView;

    open spec fn view(&self) -> ChangeView {
        match self {
            TabChange::Title { new_title } => ChangeView::Title(text_or_empty(*new_title)),
            TabChange::Url { new_url, url_key } => ChangeView::Url(text_or_empty(*new_url), url_key@),
            TabChange::Pinned { pinned } => ChangeView::Pinned(*pinned),
            TabChange::Unloaded { unloaded } => ChangeView::Unloaded(*unloaded),
            TabChange::Focused { at } => ChangeView::Focused(*at),
            TabChange::AddedToTag { tag } => ChangeView::AddedToTag(tag@),
            TabChange::RemovedFromTag { tag_name } => ChangeView::RemovedFromTag(tag_name@),
        }
    }
}

/// `tags` without the name `name`.
pub open spec fn drop_tag(tags: Seq<Seq<char>>, name: Seq<char>) -> Seq<Seq<char>>
    decreases tags.len(),
{
    if tags.len() == 0 {
        tags
    } else {
        let r = drop_tag(tags.drop_last(), name);
        if tags.last() == name {
            r
        } else {
            r.push(tags.last())
        }
    }
}

proof fn lemma_drop_tag(tags: Seq<Seq<char>>, name: Seq<char>)
    requires
        tags_distinct(tags),
    ensures
        tags_distinct(drop_tag(tags, name)),
        forall|x: Seq<char>| drop_tag(tags, name).contains(x) ==> tags.contains(x),
    decreases tags.len(),
{
    if tags.len() > 0 {
        let init = tags.drop_last();
        assert(tags_distinct(init));
        lemma_drop_tag(init, name);
        let r = drop_tag(init, name);
        assert forall|x: Seq<char>| drop_tag(tags, name).contains(x) implies tags.contains(x) by {
            if r.contains(x) {
                assert(init.contains(x));
                let i = choose|i: int| 0 <= i < init.len() && init[i] == x;
                assert(tags[i] == x);
            } else {
                assert(tags[tags.len() - 1] == x);
            }
        }
        if tags.last() != name {
            assert forall|i: int, j: int| 0 <= i < j < r.len() + 1 implies r.push(tags.last())[i] != r.push(tags.last())[j] by {
                if j == r.len() {
                    assert(r.contains(r[i]));
                    assert(init.contains(r[i]));
                    let a = choose|a: int| 0 <= a < init.len() && init[a] == r[i];
                    assert(tags[a] != tags[tags.len() - 1]);
                }
            }
        }
    }
}

/// The tab after one change.
pub open spec fn changed(t: TabView, c: ChangeView) -> TabView {
    match c {
        ChangeView::Title(s) => TabView { title: s, ..t },
        ChangeView::Url(u, k) => TabView { url: u, url_key: k, ..t },
        ChangeView::Pinned(b) => TabView { pinned: b, ..t },
        ChangeView::Unloaded(b) => TabView { unloaded: b, ..t },
        ChangeView::Focused(at) => TabView { focused: at, ..t },
        ChangeView::AddedToTag(s) => TabView { tags: t.tags.push(s), ..t },
        ChangeView::RemovedFromTag(s) => TabView { tags: drop_tag(t.tags, s), ..t },
    }
}

/// A change can be made: a tag is joined only by a tab without it, and left
/// only by a tab with it.
pub open spec fn change_ok(t: TabView, c: ChangeView) -> bool {
    match c {
        ChangeView::AddedToTag(s) => !t.tags.contains(s),
        ChangeView::RemovedFromTag(s) => t.tags.contains(s),
        _ => true,
    }
}

/// Every change of a list can be made, each on the tab the ones before it
/// left.
pub open spec fn changes_ok(t: TabView, cs: Seq<ChangeView>) -> bool
    decreases cs.len(),
{
    if cs.len() == 0 {
        true
    } else {
        changes_ok(t, cs.drop_last()) && change_ok(changed_all(t, cs.drop_last()), cs.last())
    }
}

proof fn lemma_changes_ok_prefix(t: TabView, cs: Seq<ChangeView>, k: int)
    requires
        changes_ok(t, cs),
        0 <= k <= cs.len(),
    ensures
        changes_ok(t, cs.take(k)),
    decreases cs.len(),
{
    if k == cs.len() {
        assert(cs.take(k) =~= cs);
    } else {
        lemma_changes_ok_prefix(t, cs.drop_last(), k);
        assert(cs.drop_last().take(k) =~= cs.take(k));
    }
}

/// The tab after a list of changes, in order.
pub open spec fn changed_all(t: TabView, cs: Seq<ChangeView>) -> TabView
    decreases cs.len(),
{
    if cs.len() == 0 {
        t
    } else {
        changed(changed_all(t, cs.drop_last()), cs.last())
    }
}

/// Applies one change to a tab.
pub fn apply_change(tab: &mut TabInfo, change: TabChange)
    requires
        tags_distinct(old(tab)@.tags),
        change_ok(old(tab)@, change@),
    ensures
        final(tab)@ == changed(old(tab)@, change@),
        tags_distinct(final(tab)@.tags),
{
    let ghost t0 = tab@;
    match change {
        TabChange::Title { new_title } => {
            tab.title = new_title;
        },
        TabChange::Url { new_url, url_key } => {
            tab.url = new_url;
            tab.url_key = url_key;
        },
        TabChange::Pinned { pinned } => {
            tab.pinned = pinned;
        },
        TabChange::Unloaded { unloaded } => {
            tab.unloaded = unloaded;
        },
        TabChange::Focused { at } => {
            tab.focused = at;
        },
        TabChange::AddedToTag { tag } => {
            let ghost s = tag@;
            tab.tags.push(tag);
            proof {
                assert(tab@.tags =~= t0.tags.push(s));
                assert forall|i: int, j: int| 0 <= i < j < tab@.tags.len() implies tab@.tags[i] != tab@.tags[j] by {
                    if j == t0.tags.len() {
                        assert(t0.tags.contains(t0.tags[i]));
                    }
                }
            }
        },
        TabChange::RemovedFromTag { tag_name } => {
            let n = tab.tags.len();
            let mut kept: Vec<String> = Vec::new();
            let mut i: usize = 0;
            let ghost tv = tab@.tags;
            while i < n
                invariant
                    n == tv.len(),
                    tv == tab@.tags,
                    i <= n,
                    kept@.map_values(|t: String| t@) == drop_tag(tv.take(i as int), tag_name@),
                decreases n - i,
            {
                proof {
                    assert(tv.take(i + 1).drop_last() =~= tv.take(i as int));
                }
                if compare_text(tab.tags[i].as_str(), tag_name.as_str()) != 0 {
                    let ghost k0 = kept@;
                    kept.push(tab.tags[i].clone());
                    proof {
                        assert(kept@.map_values(|t: String| t@) =~= k0.map_values(|t: String| t@).push(tv[i as int]));
                    }
                }
                i = i + 1;
            }
            proof {
                assert(tv.take(n as int) =~= tv);
                lemma_drop_tag(tv, tag_name@);
            }
            tab.tags = kept;
        },
    }
    proof {
        assert(tab@ == changed(t0, change@));
    }
}

pub open spec fn change_views(cs: Seq<TabChange>) -> Seq<ChangeView> {
    cs.map_values(|c: TabChange| c@)
}

/// Applies changes to a tab, in order.
pub fn apply_changes(tab: &mut TabInfo, changes: Vec<TabChange>)
    requires
        tags_distinct(old(tab)@.tags),
        changes_ok(old(tab)@, change_views(changes@)),
    ensures
        final(tab)@ == changed_all(old(tab)@, change_views(changes@)),
        tags_distinct(final(tab)@.tags),
{
    let ghost t0 = tab@;
    let ghost all = change_views(changes@);
    let mut rest = changes;
    let total = rest.len();
    let mut pending: Vec<TabChange> = Vec::new();
    while rest.len() > 0
        invariant
            total == all.len(),
            pending@.len() + rest@.len() == all.len(),
            forall|j: int| 0 <= j < rest@.len() ==> #[trigger] rest@[j]@ == all[j],
            forall|j: int| 0 <= j < pending@.len() ==> #[trigger] pending@[j]@ == all[all.len() - 1 - j],
        decreases rest@.len(),
    {
        let c = rest.pop().unwrap();
        pending.push(c);
    }
    let mut done: usize = 0;
    while pending.len() > 0
        invariant
            total == all.len(),
            pending@.len() + done == all.len(),
            forall|j: int| 0 <= j < pending@.len() ==> #[trigger] pending@[j]@ == all[all.len() - 1 - j],
            tab@ == changed_all(t0, all.take(done as int)),
            tags_distinct(tab@.tags),
            changes_ok(t0, all),
        decreases pending@.len(),
    {
        let c = pending.pop().unwrap();
        proof {
            assert(c@ == all[done as int]);
            assert(all.take(done + 1).drop_last() =~= all.take(done as int));
            lemma_changes_ok_prefix(t0, all, done + 1);
            assert(all.take(done + 1).last() == all[done as int]);
        }
        apply_change(tab, c);
        done = done + 1;
    }
    assert(all.take(done as int) =~= all);
}

fn copy_text(s: &Option<String>) -> (r: Option<String>)
    ensures
        text_or_empty(r) == text_or_empty(*s),
        r is Some == s is Some,
{
    match s {
        Some(t) => Some(t.clone()),
        None => None,
    }
}

/// A copy of a tab's fields.
pub fn copy_tab(t: &TabInfo) -> (r: TabInfo)
    ensures
        r@ == t@,
{
    let mut tags: Vec<String> = Vec::new();
    let mut i: usize = 0;
    while i < t.tags.len()
        invariant
            i <= t.tags@.len(),
            tags@.map_values(|s: String| s@) == t@.tags.take(i as int),
        decreases t.tags@.len() - i,
    {
        let ghost k0 = tags@;
        tags.push(t.tags[i].clone());
        proof {
            assert(tags@.map_values(|s: String| s@) =~= k0.map_values(|s: String| s@).push(t@.tags[i as int]));
            assert(t@.tags.take(i + 1) =~= t@.tags.take(i as int).push(t@.tags[i as int]));
        }
        i = i + 1;
    }
    assert(t@.tags.take(i as int) =~= t@.tags);
    let r = TabInfo {
        id: t.id,
        title: copy_text(&t.title),
        url: copy_text(&t.url),
        url_key: t.url_key.clone(),
        pinned: t.pinned,
        unloaded: t.unloaded,
        tags,
        created: t.created,
        focused: t.focused,
    };
    assert(r@.tags =~= t@.tags);
    r
}

/// What the window's owner reports about its tabs.
pub enum Message {
    TabInserted { index: usize, tab: TabInfo },
    TabRemoved { index: usize },
    TabChanged { index: usize, changes: Vec<TabChange> },
}

/// Whether the engine can take a message: positions in range, tag names
/// distinct, tag changes that can be made, and ids left for the groups it
/// may make.
pub open spec fn message_fits(g: Groups, msg: Message) -> bool {
    match msg {
        Message::TabInserted { index, tab } => index <= g@.window.len() && g@.window.len() + 1 < usize::MAX
            && tags_distinct(tab@.tags) && key_count(g@.mode, tab@) <= g.spare_ids(),
        Message::TabRemoved { index } => index < g@.window.len(),
        Message::TabChanged { index, changes } => index < g@.window.len()
            && changes_ok(g@.window[index as int], change_views(changes@)) && key_count(
            g@.mode,
            changed_all(g@.window[index as int], change_views(changes@)),
        ) <= g.spare_ids(),
    }
}

/// The window after a message.
pub open spec fn window_after(w: Seq<TabView>, msg: Message) -> Seq<TabView> {
    match msg {
        Message::TabInserted { index, tab } => w.insert(index as int, tab@),
        Message::TabRemoved { index } => w.remove(index as int),
        Message::TabChanged { index, changes } => w.update(
            index as int,
            changed_all(w[index as int], change_views(changes@)),
        ),
    }
}

impl Groups {
    /// Takes one message from the window's owner; returns the memberships
    /// that leave the index.
    pub fn process_message(&mut self, msg: Message, now: u64) -> (r: Vec<Departure>)
        requires
            old(self).well_formed(),
            message_fits(*old(self), msg),
        ensures
            final(self).well_formed(),
            final(self)@.mode == old(self)@.mode,
            final(self)@.query == old(self)@.query,
            final(self)@.window == window_after(old(self)@.window, msg),
            ids_kept(old(self)@.groups, final(self)@.groups),
            final(self)@.next_id <= old(self)@.next_id + match msg {
                Message::TabInserted { index, tab } => key_count(old(self)@.mode, tab@),
                Message::TabRemoved { index } => 0,
                Message::TabChanged { index, changes } => key_count(
                    old(self)@.mode,
                    changed_all(old(self)@.window[index as int], change_views(changes@)),
                ),
            },
            match msg {
                Message::TabInserted { index, tab } => {
                    &&& r@.len() == 0
                    &&& kept(old(self)@.groups, final(self)@.groups)
                    &&& placed_live(final(self)@.groups, index as int)
                    &&& fresh_groups(old(self)@.mode, old(self)@.groups, final(self)@.groups, now)
                },
                Message::TabRemoved { index } => r@ == departures(old(self)@.groups, index as int, |k: KeyView| false),
                Message::TabChanged { index, changes } => {
                    &&& r@ == departures(
                        old(self)@.groups,
                        index as int,
                        |k: KeyView| has_key(old(self)@.mode, changed_all(old(self)@.window[index as int], change_views(changes@)), k),
                    )
                    &&& placed_live(final(self)@.groups, index as int)
                    &&& fresh_groups(old(self)@.mode, old(self)@.groups, final(self)@.groups, now)
                },
            },
    {
        match msg {
            Message::TabInserted { index, tab } => {
                self.tab_inserted(index, tab, now);
                Vec::new()
            },
            Message::TabRemoved { index } => {
                self.tab_removed(index)
            },
            Message::TabChanged { index, changes } => {
                let mut tab = copy_tab(&self.window()[index]);
                proof {
                    assert(crate::engine::tags_ok(self@.window));
                    assert(tags_distinct(self@.window[index as int].tags));
                }
                apply_changes(&mut tab, changes);
                self.tab_updated(index, tab, now)
            },
        }
    }
}

} // verus!

use tab_groups::changes::{Message, TabChange};
use tab_groups::engine::Groups;
use tab_groups::index::{Group, Lifecycle};
use tab_groups::keys::{GroupKey, SortMode, TabInfo};
use tab_groups::search::Query;

const HOUR: u64 = 3_600_000;

fn tab(id: u128, title: Option<&str>, url: Option<&str>, url_key: &str, pinned: bool, tags: &[&str]) -> TabInfo {
    TabInfo {
        id,
        title: title.map(|t| t.to_string()),
        url: url.map(|u| u.to_string()),
        url_key: url_key.to_string(),
        pinned,
        unloaded: false,
        tags: tags.iter().map(|t| t.to_string()).collect(),
        created: 0,
        focused: 0,
    }
}

fn titled(id: u128, title: &str) -> TabInfo {
    tab(id, Some(title), None, "", false, &[])
}

fn empty(mode: SortMode) -> Groups {
    Groups::new(mode, vec![], Query::parse(""), 0)
}

fn ids(g: &Groups, group: &Group) -> Vec<u128> {
    group.members.iter().map(|m| g.window()[m.pos].id).collect()
}

fn key_text(k: &GroupKey) -> String {
    match k {
        GroupKey::Pinned => "<pinned>".to_string(),
        GroupKey::Unpinned => "<unpinned>".to_string(),
        GroupKey::Text(s) => s.clone(),
        GroupKey::Hour(h) => format!("<{}>", h),
    }
}

fn layout(g: &Groups) -> Vec<(String, Vec<u128>)> {
    g.groups().iter().map(|x| (key_text(&x.key), ids(g, x))).collect()
}

#[test]
fn window_mode_pinned_first() {
    let mut g = empty(SortMode::Window);
    g.tab_inserted(0, tab(1, Some("a"), None, "", true, &[]), 0);
    g.tab_inserted(1, tab(2, Some("b"), None, "", false, &[]), 0);
    g.tab_inserted(2, tab(3, Some("c"), None, "", true, &[]), 0);
    let groups = g.groups();
    assert_eq!(groups.len(), 2);
    assert_eq!(key_text(&groups[0].key), "<pinned>");
    assert_eq!(groups[0].title.as_deref(), Some("Pinned"));
    assert_eq!(ids(&g, &groups[0]), vec![1, 3]);
    assert_eq!(key_text(&groups[1].key), "<unpinned>");
    assert_eq!(groups[1].title, None);
    assert_eq!(ids(&g, &groups[1]), vec![2]);
}

#[test]
fn tag_mode_membership_per_tag() {
    let mut g = empty(SortMode::Tag);
    g.tab_inserted(0, tab(7, Some("t"), None, "", false, &["work", "urgent"]), 0);
    assert_eq!(
        layout(&g),
        vec![("urgent".to_string(), vec![7]), ("work".to_string(), vec![7])]
    );
    g.process_message(
        Message::TabChanged { index: 0, changes: vec![TabChange::RemovedFromTag { tag_name: "urgent".to_string() }] },
        0,
    );
    assert_eq!(layout(&g), vec![("work".to_string(), vec![7])]);
    assert_eq!(g.window()[0].tags, vec!["work".to_string()]);
}

#[test]
fn tag_mode_group_kept_for_other_tab() {
    let window = vec![
        tab(1, Some("a"), None, "", false, &["work", "urgent"]),
        tab(2, Some("b"), None, "", false, &["urgent"]),
    ];
    let mut g = Groups::new(SortMode::Tag, window, Query::parse(""), 0);
    g.process_message(
        Message::TabChanged { index: 0, changes: vec![TabChange::RemovedFromTag { tag_name: "urgent".to_string() }] },
        0,
    );
    assert_eq!(
        layout(&g),
        vec![("urgent".to_string(), vec![2]), ("work".to_string(), vec![1])]
    );
}

#[test]
fn tag_mode_untagged_group_first() {
    let window = vec![tab(1, Some("a"), None, "", false, &["alpha"]), tab(2, Some("b"), None, "", false, &[])];
    let g = Groups::new(SortMode::Tag, window, Query::parse(""), 0);
    assert_eq!(layout(&g), vec![("".to_string(), vec![2]), ("alpha".to_string(), vec![1])]);
    assert_eq!(g.groups()[0].title, None);
    assert_eq!(g.groups()[1].title.as_deref(), Some("alpha"));
}

#[test]
fn name_mode_initials() {
    let window = vec![titled(1, "Banana"), titled(2, "apple"), tab(3, None, None, "", false, &[])];
    let g = Groups::new(SortMode::Name, window, Query::parse(""), 0);
    let keys: Vec<String> = g.groups().iter().map(|x| key_text(&x.key)).collect();
    assert_eq!(keys, vec!["".to_string(), "A".to_string(), "B".to_string()]);
}

#[test]
fn name_mode_trims_and_orders_by_title() {
    let window = vec![titled(1, "  beta"), titled(2, "Bravo"), titled(3, "bag")];
    let g = Groups::new(SortMode::Name, window, Query::parse(""), 0);
    // One group "B"; tabs ordered by raw title: "  beta" < "Bravo" < "bag".
    assert_eq!(layout(&g), vec![("B".to_string(), vec![1, 2, 3])]);
}

#[test]
fn url_mode_moves_changed_tab() {
    let window = vec![
        tab(1, Some("x"), Some("https://a.com/one"), "https://a.com", false, &[]),
        tab(2, Some("y"), Some("https://a.com/two"), "https://a.com", false, &[]),
    ];
    let mut g = Groups::new(SortMode::Url, window, Query::parse(""), 0);
    assert_eq!(layout(&g), vec![("https://a.com".to_string(), vec![1, 2])]);
    g.process_message(
        Message::TabChanged {
            index: 1,
            changes: vec![TabChange::Url {
                new_url: Some("https://b.com/two".to_string()),
                url_key: "https://b.com".to_string(),
            }],
        },
        0,
    );
    assert_eq!(
        layout(&g),
        vec![("https://a.com".to_string(), vec![1]), ("https://b.com".to_string(), vec![2])]
    );
}

#[test]
fn url_mode_orders_by_url_then_position() {
    let window = vec![
        tab(1, None, Some("https://a.com/z"), "https://a.com", false, &[]),
        tab(2, None, Some("https://a.com/b"), "https://a.com", false, &[]),
        tab(3, None, Some("https://a.com/b"), "https://a.com", false, &[]),
    ];
    let g = Groups::new(SortMode::Url, window, Query::parse(""), 0);
    assert_eq!(layout(&g), vec![("https://a.com".to_string(), vec![2, 3, 1])]);
}

#[test]
fn time_mode_latest_hour_first() {
    let mut a = titled(1, "a");
    a.focused = 5 * HOUR + 10;
    let mut b = titled(2, "b");
    b.focused = 2 * HOUR;
    let mut c = titled(3, "c");
    c.focused = 5 * HOUR + 20;
    let g = Groups::new(SortMode::TimeFocused, vec![a, b, c], Query::parse(""), 6 * HOUR + 1);
    assert_eq!(
        layout(&g),
        vec![(format!("<{}>", 5 * HOUR), vec![3, 1]), (format!("<{}>", 2 * HOUR), vec![2])]
    );
    assert_eq!(g.groups()[0].title.as_deref(), Some("1 hour ago"));
    assert_eq!(g.groups()[1].title.as_deref(), Some("4 hours ago"));
}

#[test]
fn time_titles_follow_the_clock() {
    let mut a = titled(1, "a");
    a.created = 3 * HOUR;
    let mut g = Groups::new(SortMode::TimeCreated, vec![a], Query::parse(""), 3 * HOUR);
    assert_eq!(g.groups()[0].title.as_deref(), Some("This hour"));
    g.update_group_titles(3 * HOUR + 50 * HOUR);
    assert_eq!(g.groups()[0].title.as_deref(), Some("2 days ago"));
    g.update_group_titles(3 * HOUR + 30 * HOUR);
    assert_eq!(g.groups()[0].title.as_deref(), Some("1 day ago"));
    assert_eq!(layout(&g), vec![(format!("<{}>", 3 * HOUR), vec![1])]);
}

#[test]
fn titles_outside_time_modes_stay() {
    let mut g = Groups::new(SortMode::Name, vec![titled(1, "x")], Query::parse(""), 0);
    g.update_group_titles(100 * HOUR);
    assert_eq!(g.groups()[0].title.as_deref(), Some("X"));
}

#[test]
fn removing_last_tab_drops_group() {
    let mut g = Groups::new(SortMode::Window, vec![tab(1, None, None, "", true, &[]), titled(2, "b")], Query::parse(""), 0);
    g.tab_removed(0);
    assert_eq!(layout(&g), vec![("<unpinned>".to_string(), vec![2])]);
    assert_eq!(g.groups()[0].members[0].pos, 0);
    g.process_message(Message::TabRemoved { index: 0 }, 0);
    assert!(g.groups().is_empty());
}

#[test]
fn insert_then_remove_restores() {
    let window = vec![
        tab(1, Some("a"), None, "", false, &["x"]),
        tab(2, Some("b"), None, "", false, &["y", "x"]),
    ];
    let mut g = Groups::new(SortMode::Tag, window, Query::parse(""), 0);
    let before = layout(&g);
    let ids_before: Vec<u64> = g.groups().iter().map(|x| x.id).collect();
    g.tab_inserted(1, tab(3, Some("c"), None, "", false, &["z", "x"]), 0);
    assert_eq!(
        layout(&g),
        vec![("x".to_string(), vec![1, 3, 2]), ("y".to_string(), vec![2]), ("z".to_string(), vec![3])]
    );
    g.tab_removed(1);
    assert_eq!(layout(&g), before);
    let ids_after: Vec<u64> = g.groups().iter().map(|x| x.id).collect();
    assert_eq!(ids_after, ids_before);
}

#[test]
fn sort_round_trip_matches_fresh_build() {
    let window = vec![
        tab(1, Some("Zeta"), Some("https://z.org/1"), "https://z.org", true, &["b"]),
        tab(2, Some("alpha"), Some("https://a.org/1"), "https://a.org", false, &["a", "b"]),
        tab(3, None, None, "", false, &[]),
    ];
    let copy = window.clone();
    let mut g = Groups::new(SortMode::Window, window, Query::parse(""), 0);
    g.change_sort(SortMode::Name, 0);
    g.change_sort(SortMode::Tag, 0);
    g.change_sort(SortMode::Name, 0);
    let fresh = Groups::new(SortMode::Name, copy, Query::parse(""), 0);
    assert_eq!(layout(&g), layout(&fresh));
    assert_eq!(layout(&g), vec![
        ("".to_string(), vec![3]),
        ("A".to_string(), vec![2]),
        ("Z".to_string(), vec![1]),
    ]);
}

#[test]
fn search_is_loaded_and_word() {
    let q = Query::parse("is:loaded report");
    let mut loaded = titled(1, "Quarterly REPORT");
    assert!(q.matches(&loaded));
    loaded.unloaded = true;
    assert!(!q.matches(&loaded));
}

#[test]
fn search_matches_url_and_unknown_key() {
    let q = Query::parse("  Example.COM   foo:bar ");
    assert_eq!(q.terms.len(), 2);
    let t = tab(1, Some("nothing"), Some("https://example.com/x"), "", false, &[]);
    assert!(q.matches(&t));
    let u = tab(2, Some("examplexcom"), None, "", false, &[]);
    assert!(!q.matches(&u));
}

#[test]
fn empty_query_matches_everything() {
    let q = Query::parse("   ");
    assert!(q.terms.is_empty());
    assert!(q.matches(&tab(1, None, None, "", false, &[])));
}

#[test]
fn search_flags_follow_query() {
    let window = vec![titled(1, "Report one"), titled(2, "Other")];
    let mut g = Groups::new(SortMode::Window, window, Query::parse("report"), 0);
    let flags: Vec<bool> = g.groups()[0].members.iter().map(|m| m.matches_search).collect();
    assert_eq!(flags, vec![true, false]);
    g.set_query(Query::parse("other"));
    let flags: Vec<bool> = g.groups()[0].members.iter().map(|m| m.matches_search).collect();
    assert_eq!(flags, vec![false, true]);
    g.tab_inserted(0, titled(3, "third"), 0);
    assert!(!g.groups()[0].members[0].matches_search);
    assert_eq!(g.groups()[0].members[0].state, Lifecycle::Inserting);
    assert_eq!(g.groups()[0].members[1].state, Lifecycle::Active);
}

#[test]
fn added_tags_and_pin_in_one_message() {
    let mut g = Groups::new(SortMode::Tag, vec![tab(1, None, None, "", false, &["a"])], Query::parse(""), 0);
    let gone = g.process_message(
        Message::TabChanged {
            index: 0,
            changes: vec![TabChange::AddedToTag { tag: "b".to_string() }, TabChange::Pinned { pinned: true }],
        },
        0,
    );
    assert_eq!(layout(&g), vec![("a".to_string(), vec![1]), ("b".to_string(), vec![1])]);
    assert!(g.window()[0].pinned);
    // The old membership in "a" is replaced; the group stays.
    assert_eq!(gone.len(), 1);
    assert!(!gone[0].group_gone);
}

#[test]
fn time_mode_ties_in_window_order() {
    let mut a = titled(1, "a");
    a.created = 2 * HOUR + 9;
    let mut b = titled(2, "b");
    b.created = 2 * HOUR + 9;
    let mut c = titled(3, "c");
    c.created = 2 * HOUR + 1;
    let mut g = Groups::new(SortMode::TimeCreated, vec![a, b, c], Query::parse(""), 2 * HOUR);
    assert_eq!(layout(&g), vec![(format!("<{}>", 2 * HOUR), vec![1, 2, 3])]);
    let mut d = titled(4, "d");
    d.created = 2 * HOUR + 9;
    g.tab_inserted(0, d, 2 * HOUR);
    assert_eq!(layout(&g), vec![(format!("<{}>", 2 * HOUR), vec![4, 1, 2, 3])]);
}

#[test]
fn removal_reports_departures() {
    let window = vec![
        tab(1, None, None, "", false, &["x", "y"]),
        tab(2, None, None, "", false, &["x"]),
    ];
    let mut g = Groups::new(SortMode::Tag, window, Query::parse(""), 0);
    let x = g.groups()[0].id;
    let y = g.groups()[1].id;
    let gone = g.tab_removed(0);
    assert_eq!(gone.len(), 2);
    assert_eq!((gone[0].group, gone[0].pos, gone[0].group_gone), (x, 0, false));
    assert_eq!((gone[1].group, gone[1].pos, gone[1].group_gone), (y, 0, true));
    assert_eq!(layout(&g), vec![("x".to_string(), vec![2])]);
    assert_eq!(g.groups()[0].id, x);
}

#[test]
fn live_groups_are_inserting_and_titled() {
    let mut g = empty(SortMode::TimeFocused);
    let mut a = titled(1, "a");
    a.focused = 4 * HOUR;
    g.tab_inserted(0, a, 6 * HOUR);
    assert_eq!(g.groups()[0].state, Lifecycle::Inserting);
    assert_eq!(g.groups()[0].title.as_deref(), Some("2 hours ago"));
    let old = g.change_sort(SortMode::Window, 6 * HOUR);
    assert_eq!(old.len(), 1);
    assert_eq!(g.groups()[0].state, Lifecycle::Active);
    assert_ne!(g.groups()[0].id, old[0].id);
}

#[test]
fn message_insert_shifts_positions() {
    let mut g = Groups::new(SortMode::Window, vec![titled(1, "a"), titled(2, "b")], Query::parse(""), 0);
    g.process_message(Message::TabInserted { index: 0, tab: titled(3, "c") }, 0);
    assert_eq!(layout(&g), vec![("<unpinned>".to_string(), vec![3, 1, 2])]);
    let positions: Vec<usize> = g.groups()[0].members.iter().map(|m| m.pos).collect();
    assert_eq!(positions, vec![0, 1, 2]);
}

#[test]
fn group_ids_are_distinct() {
    let window = vec![tab(1, None, None, "", false, &["a", "b", "c"])];
    let g = Groups::new(SortMode::Tag, window, Query::parse(""), 0);
    let mut seen: Vec<u64> = g.groups().iter().map(|x| x.id).collect();
    seen.sort();
    seen.dedup();
    assert_eq!(seen.len(), 3);
}

#[test]
fn retitled_tab_keeps_its_group() {
    let mut g = Groups::new(SortMode::Name, vec![titled(1, "apple")], Query::parse(""), 0);
    let id = g.groups()[0].id;
    g.process_message(
        Message::TabChanged { index: 0, changes: vec![TabChange::Title { new_title: Some("avocado".to_string()) }] },
        0,
    );
    assert_eq!(layout(&g), vec![("A".to_string(), vec![1])]);
    assert_eq!(g.groups()[0].id, id);
    assert_eq!(g.window()[0].title.as_deref(), Some("avocado"));
}

#[test]
fn retitled_tab_moves_within_group() {
    let window = vec![titled(1, "alpha"), titled(2, "amber")];
    let mut g = Groups::new(SortMode::Name, window, Query::parse(""), 0);
    assert_eq!(layout(&g), vec![("A".to_string(), vec![1, 2])]);
    g.process_message(
        Message::TabChanged { index: 0, changes: vec![TabChange::Title { new_title: Some("azure".to_string()) }] },
        0,
    );
    assert_eq!(layout(&g), vec![("A".to_string(), vec![2, 1])]);
}

#[test]
fn pinning_moves_tab_between_window_groups() {
    let mut g = Groups::new(SortMode::Window, vec![titled(1, "a"), titled(2, "b")], Query::parse(""), 0);
    g.process_message(Message::TabChanged { index: 1, changes: vec![TabChange::Pinned { pinned: true }] }, 0);
    assert_eq!(
        layout(&g),
        vec![("<pinned>".to_string(), vec![2]), ("<unpinned>".to_string(), vec![1])]
    );
    g.process_message(Message::TabChanged { index: 1, changes: vec![TabChange::Pinned { pinned: false }] }, 0);
    assert_eq!(layout(&g), vec![("<unpinned>".to_string(), vec![1, 2])]);
}

#[test]
fn focus_moves_tab_to_latest_group() {
    let mut a = titled(1, "a");
    a.focused = HOUR;
    let mut b = titled(2, "b");
    b.focused = HOUR + 5;
    let mut g = Groups::new(SortMode::TimeFocused, vec![a, b], Query::parse(""), 3 * HOUR);
    assert_eq!(layout(&g), vec![(format!("<{}>", HOUR), vec![2, 1])]);
    g.process_message(Message::TabChanged { index: 0, changes: vec![TabChange::Focused { at: 3 * HOUR + 7 }] }, 3 * HOUR + 8);
    assert_eq!(
        layout(&g),
        vec![(format!("<{}>", 3 * HOUR), vec![1]), (format!("<{}>", HOUR), vec![2])]
    );
    assert_eq!(g.groups()[0].title.as_deref(), Some("This hour"));
}

#[test]
fn unloading_changes_search_flag() {
    let mut g = Groups::new(SortMode::Window, vec![titled(1, "a")], Query::parse("is:loaded"), 0);
    assert!(g.groups()[0].members[0].matches_search);
    g.process_message(Message::TabChanged { index: 0, changes: vec![TabChange::Unloaded { unloaded: true }] }, 0);
    assert!(!g.groups()[0].members[0].matches_search);
}

#[test]
fn empty_window_has_no_groups() {
    for mode in [SortMode::Window, SortMode::Tag, SortMode::TimeFocused, SortMode::TimeCreated, SortMode::Url, SortMode::Name] {
        let g = Groups::new(mode, vec![], Query::parse(""), 0);
        assert!(g.groups().is_empty());
        assert_eq!(g.mode(), mode);
    }
}

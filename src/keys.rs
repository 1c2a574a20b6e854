//! Tabs, sort modes, group keys, and the two orders of each mode: the order
//! of groups and the order of tabs inside a group.
use vstd::prelude::*;
use crate::text::{lex_lt, compare_text, initial, initial_of, decimal, push_decimal, push_text, lemma_lex_irreflexive, lemma_lex_transitive, lemma_lex_total};

verus! {

/// Milliseconds in an hour: time groups are one hour wide.
pub const HOUR_MS: u64 = 3600000;

/// How tabs are grouped and ordered.
#[derive(Clone, Copy, Debug, PartialEq, Eq, Structural)]
pub enum SortMode {
    Window,
    Tag,
    TimeFocused,
    TimeCreated,
    Url,
    Name,
}

/// The canonical fields of a tab, as the window holds them.
#[derive(Clone, Debug)]
pub struct TabInfo {
    pub id: u128,
    pub title: Option<String>,
    pub url: Option<String>,
    /// The site key of `url` (protocol, separator, authority, domain and
    /// port of the shortened url), as the url shortener computes it.
    pub url_key: String,
    pub pinned: bool,
    pub unloaded: bool,
    /// Tag names, with no name twice.
    pub tags: Vec<String>,
    /// Milliseconds since the epoch.
    pub created: u64,
    /// Milliseconds since the epoch.
    pub focused: u64,
}

/// What the logic reads of a tab; a missing title or url reads as empty.
pub struct TabView {
    pub id: u128,
    pub title: Seq<char>,
    pub url: Seq<char>,
    pub url_key: Seq<char>,
    pub pinned: bool,
    pub unloaded: bool,
    pub tags: Seq<Seq<char>>,
    pub created: u64,
    pub focused: u64,
}

pub open spec fn text_or_empty(s: Option<String>) -> Seq<char> {
    match s {
        Some(t) => t@,
        None => Seq::empty(),
    }
}

impl View for TabInfo {
    type V = TabView;

    open spec fn view(&self) -> TabView {
        TabView {
            id: self.id,
            title: text_or_empty(self.title),
            url: text_or_empty(self.url),
            url_key: self.url_key@,
            pinned: self.pinned,
            unloaded: self.unloaded,
            tags: self.tags@.map_values(|t: String| t@),
            created: self.created,
            focused: self.focused,
        }
    }
}

/// No tag name occurs twice.
pub open spec fn tags_distinct(tags: Seq<Seq<char>>) -> bool {
    forall|i: int, j: int| 0 <= i < j < tags.len() ==> tags[i] != tags[j]
}

/// The key that names a group.
#[derive(Clone, Debug)]
pub enum GroupKey {
    /// Window mode: the pinned tabs.
    Pinned,
    /// Window mode: the other tabs.
    Unpinned,
    /// Tag, Url and Name modes.
    Text(String),
    /// Time modes: the start of an hour, in milliseconds.
    Hour(u64),
}

pub enum KeyView {
    Pinned,
    Unpinned,
    Text(Seq<char>),
    Hour(u64),
}

impl View for GroupKey {
    type V = KeyView;

    open spec fn view(&self) -> KeyView {
        match self {
            GroupKey::Pinned => KeyView::Pinned,
            GroupKey::Unpinned => KeyView::Unpinned,
            GroupKey::Text(s) => KeyView::Text(s@),
            GroupKey::Hour(h) => KeyView::Hour(*h),
        }
    }
}

/// The start of the hour that holds `t`.
pub open spec fn hour_of(t: u64) -> u64 {
    (t - t % HOUR_MS) as u64
}

pub fn round_to_hour(t: u64) -> (r: u64)
    ensures
        r == hour_of(t),
{
    t - t % HOUR_MS
}

/// The keys that a mode uses.
pub open spec fn key_fits(mode: SortMode, k: KeyView) -> bool {
    match mode {
        SortMode::Window => k is Pinned || k is Unpinned,
        SortMode::Tag | SortMode::Url | SortMode::Name => k is Text,
        SortMode::TimeFocused | SortMode::TimeCreated => k is Hour,
    }
}

/// Whether the tab belongs to the group with key `k` under `mode`.
pub open spec fn has_key(mode: SortMode, t: TabView, k: KeyView) -> bool {
    match mode {
        SortMode::Window => k == if t.pinned { KeyView::Pinned } else { KeyView::Unpinned },
        SortMode::Tag => if t.tags.len() == 0 {
            k == KeyView::Text(Seq::empty())
        } else {
            exists|i: int| 0 <= i < t.tags.len() && k == KeyView::Text(#[trigger] t.tags[i])
        },
        SortMode::TimeFocused => k == KeyView::Hour(hour_of(t.focused)),
        SortMode::TimeCreated => k == KeyView::Hour(hour_of(t.created)),
        SortMode::Url => k == KeyView::Text(t.url_key),
        SortMode::Name => k == KeyView::Text(initial_of(t.title)),
    }
}

/// The order of groups: the pinned group first; texts ascending (the empty
/// text first); hours descending, the latest first.
pub open spec fn key_lt(a: KeyView, b: KeyView) -> bool {
    match (a, b) {
        (KeyView::Pinned, KeyView::Unpinned) => true,
        (KeyView::Text(x), KeyView::Text(y)) => lex_lt(x, y),
        (KeyView::Hour(x), KeyView::Hour(y)) => x > y,
        _ => false,
    }
}

pub proof fn lemma_key_order(mode: SortMode, a: KeyView, b: KeyView, c: KeyView)
    requires
        key_fits(mode, a),
        key_fits(mode, b),
        key_fits(mode, c),
    ensures
        !key_lt(a, a),
        key_lt(a, b) || key_lt(b, a) || a == b,
        key_lt(a, b) && key_lt(b, c) ==> key_lt(a, c),
{
    match (a, b) {
        (KeyView::Text(x), KeyView::Text(y)) => {
            lemma_lex_irreflexive(x);
            lemma_lex_total(x, y);
        },
        _ => {},
    }
    match (a, b, c) {
        (KeyView::Text(x), KeyView::Text(y), KeyView::Text(z)) => {
            if lex_lt(x, y) && lex_lt(y, z) {
                lemma_lex_transitive(x, y, z);
            }
        },
        _ => {},
    }
}

/// Compares two keys of one mode: -1, 0 or 1, in `key_lt` order.
pub(crate) fn compare_keys(Ghost(mode): Ghost<SortMode>, a: &GroupKey, b: &GroupKey) -> (r: i8)
    requires
        key_fits(mode, a@),
        key_fits(mode, b@),
    ensures
        r == -1 <==> key_lt(a@, b@),
        r == 0 <==> a@ == b@,
        r == 1 <==> key_lt(b@, a@),
        r == -1 || r == 0 || r == 1,
{
    proof {
        lemma_key_order(mode, a@, b@, a@);
    }
    match (a, b) {
        (GroupKey::Pinned, GroupKey::Pinned) => 0,
        (GroupKey::Unpinned, GroupKey::Unpinned) => 0,
        (GroupKey::Pinned, GroupKey::Unpinned) => -1,
        (GroupKey::Unpinned, GroupKey::Pinned) => 1,
        (GroupKey::Text(x), GroupKey::Text(y)) => compare_text(x.as_str(), y.as_str()),
        (GroupKey::Hour(x), GroupKey::Hour(y)) => {
            if *x > *y {
                -1
            } else if *x == *y {
                0
            } else {
                1
            }
        },
        _ => 2,
    }
}

/// The order of tabs inside a group, for tabs `a` at window position `pa`
/// and `b` at `pb`: window order in Window and Tag modes; latest timestamp
/// first in the time modes, url or title ascending in Url and Name modes,
/// ties in window order.
pub open spec fn tab_lt(mode: SortMode, a: TabView, pa: int, b: TabView, pb: int) -> bool {
    match mode {
        SortMode::Window | SortMode::Tag => pa < pb,
        SortMode::TimeFocused => a.focused > b.focused || (a.focused == b.focused && pa < pb),
        SortMode::TimeCreated => a.created > b.created || (a.created == b.created && pa < pb),
        SortMode::Url => lex_lt(a.url, b.url) || (a.url == b.url && pa < pb),
        SortMode::Name => lex_lt(a.title, b.title) || (a.title == b.title && pa < pb),
    }
}

pub proof fn lemma_tab_order(
    mode: SortMode,
    a: TabView,
    pa: int,
    b: TabView,
    pb: int,
    c: TabView,
    pc: int,
)
    ensures
        !tab_lt(mode, a, pa, a, pa),
        pa != pb ==> tab_lt(mode, a, pa, b, pb) || tab_lt(mode, b, pb, a, pa),
        tab_lt(mode, a, pa, b, pb) && tab_lt(mode, b, pb, c, pc) ==> tab_lt(mode, a, pa, c, pc),
        tab_lt(mode, a, pa, b, pb) ==> !tab_lt(mode, b, pb, a, pa),
{
    lemma_lex_irreflexive(a.url);
    lemma_lex_irreflexive(a.title);
    lemma_lex_total(a.url, b.url);
    lemma_lex_total(a.title, b.title);
    if lex_lt(a.url, b.url) && lex_lt(b.url, a.url) {
        lemma_lex_transitive(a.url, b.url, a.url);
    }
    if lex_lt(a.title, b.title) && lex_lt(b.title, a.title) {
        lemma_lex_transitive(a.title, b.title, a.title);
    }
    if lex_lt(a.url, b.url) && lex_lt(b.url, c.url) {
        lemma_lex_transitive(a.url, b.url, c.url);
    }
    if lex_lt(a.title, b.title) && lex_lt(b.title, c.title) {
        lemma_lex_transitive(a.title, b.title, c.title);
    }
}

fn option_text(s: &Option<String>) -> (r: &str)
    ensures
        r@ == text_or_empty(*s),
{
    match s {
        Some(t) => t.as_str(),
        None => {
            proof {
                reveal_strlit("");
            }
            ""
        },
    }
}

/// Whether tab `a` at `pa` comes before tab `b` at `pb` under `mode`.
pub fn tab_before(mode: SortMode, a: &TabInfo, pa: usize, b: &TabInfo, pb: usize) -> (r: bool)
    ensures
        r == tab_lt(mode, a@, pa as int, b@, pb as int),
{
    match mode {
        SortMode::Window | SortMode::Tag => pa < pb,
        SortMode::TimeFocused => a.focused > b.focused || (a.focused == b.focused && pa < pb),
        SortMode::TimeCreated => a.created > b.created || (a.created == b.created && pa < pb),
        SortMode::Url => {
            let c = compare_text(option_text(&a.url), option_text(&b.url));
            c == -1 || (c == 0 && pa < pb)
        },
        SortMode::Name => {
            let c = compare_text(option_text(&a.title), option_text(&b.title));
            c == -1 || (c == 0 && pa < pb)
        },
    }
}

} // verus!

verus! {

/// How many groups a tab belongs to under `mode`.
pub open spec fn key_count(mode: SortMode, t: TabView) -> nat {
    if mode == SortMode::Tag && t.tags.len() > 0 {
        t.tags.len()
    } else {
        1
    }
}

/// The keys of the groups that a tab belongs to under `mode`: no key twice,
/// and at least one.
pub fn keys_for(mode: SortMode, tab: &TabInfo) -> (r: Vec<GroupKey>)
    requires
        tags_distinct(tab@.tags),
    ensures
        r@.len() == key_count(mode, tab@),
        forall|i: int| 0 <= i < r@.len() ==> has_key(mode, tab@, #[trigger] r@[i]@),
        forall|i: int| 0 <= i < r@.len() ==> key_fits(mode, #[trigger] r@[i]@),
        forall|k: KeyView| has_key(mode, tab@, k) ==> exists|i: int| 0 <= i < r@.len() && r@[i]@ == k,
        forall|i: int, j: int| 0 <= i < j < r@.len() ==> r@[i]@ != r@[j]@,
{
    let mut r: Vec<GroupKey> = Vec::new();
    match mode {
        SortMode::Window => {
            if tab.pinned {
                r.push(GroupKey::Pinned);
            } else {
                r.push(GroupKey::Unpinned);
            }
            assert(r@[0]@ == if tab.pinned { KeyView::Pinned } else { KeyView::Unpinned });
        },
        SortMode::Tag => {
            let n = tab.tags.len();
            if n == 0 {
                r.push(GroupKey::Text(String::new()));
                assert(r@[0]@ == KeyView::Text(Seq::empty()));
            } else {
                let mut i: usize = 0;
                while i < n
                    invariant
                        n == tab.tags@.len(),
                        n > 0,
                        i <= n,
                        r@.len() == i,
                        tags_distinct(tab@.tags),
                        forall|j: int| 0 <= j < i ==> #[trigger] r@[j]@ == KeyView::Text(tab@.tags[j]),
                    decreases n - i,
                {
                    r.push(GroupKey::Text(tab.tags[i].clone()));
                    assert(r@[i as int]@ == KeyView::Text(tab@.tags[i as int]));
                    i = i + 1;
                }
                assert forall|k: KeyView| has_key(mode, tab@, k) implies exists|j: int|
                    0 <= j < r@.len() && r@[j]@ == k by {
                    let j = choose|j: int| 0 <= j < tab@.tags.len() && k == KeyView::Text(#[trigger] tab@.tags[j]);
                    assert(r@[j]@ == k);
                }
                assert forall|j: int| 0 <= j < r@.len() implies has_key(mode, tab@, #[trigger] r@[j]@) by {
                    assert(r@[j]@ == KeyView::Text(tab@.tags[j]));
                }
                assert forall|a: int, b: int| 0 <= a < b < r@.len() implies r@[a]@ != r@[b]@ by {
                    assert(r@[a]@ == KeyView::Text(tab@.tags[a]));
                    assert(r@[b]@ == KeyView::Text(tab@.tags[b]));
                }
            }
        },
        SortMode::TimeFocused => {
            r.push(GroupKey::Hour(round_to_hour(tab.focused)));
            assert(r@[0]@ == KeyView::Hour(hour_of(tab.focused)));
        },
        SortMode::TimeCreated => {
            r.push(GroupKey::Hour(round_to_hour(tab.created)));
            assert(r@[0]@ == KeyView::Hour(hour_of(tab.created)));
        },
        SortMode::Url => {
            r.push(GroupKey::Text(tab.url_key.clone()));
            assert(r@[0]@ == KeyView::Text(tab@.url_key));
        },
        SortMode::Name => {
            r.push(GroupKey::Text(initial(option_text(&tab.title))));
            assert(r@[0]@ == KeyView::Text(initial_of(tab@.title)));
        },
    }
    r
}

/// Whole hours from the hour `bucket` to the hour that holds `now`; zero
/// for a bucket that is not in the past.
pub open spec fn hours_ago(bucket: u64, now: u64) -> nat {
    if hour_of(now) > bucket {
        ((hour_of(now) - bucket) / (HOUR_MS as int)) as nat
    } else {
        0
    }
}

/// The title of a time group: how long ago its hour was.
pub open spec fn age_phrase(bucket: u64, now: u64) -> Seq<char> {
    let n = hours_ago(bucket, now);
    if n == 0 {
        "This hour"@
    } else if n == 1 {
        "1 hour ago"@
    } else if n < 24 {
        decimal(n) + " hours ago"@
    } else if n < 48 {
        "1 day ago"@
    } else {
        decimal(n / 24) + " days ago"@
    }
}

pub fn age_title(bucket: u64, now: u64) -> (r: String)
    ensures
        r@ == age_phrase(bucket, now),
{
    let now_hour = round_to_hour(now);
    let n: u64 = if now_hour > bucket {
        (now_hour - bucket) / HOUR_MS
    } else {
        0
    };
    if n == 0 {
        "This hour".to_owned()
    } else if n == 1 {
        "1 hour ago".to_owned()
    } else if n < 24 {
        let mut s = String::new();
        push_decimal(&mut s, n);
        push_text(&mut s, " hours ago");
        s
    } else if n < 48 {
        "1 day ago".to_owned()
    } else {
        let mut s = String::new();
        push_decimal(&mut s, n / 24);
        push_text(&mut s, " days ago");
        s
    }
}

/// The title shown on a group: "Pinned" for the pinned group, none for the
/// unpinned group or the group of untagged tabs, the age for a time group,
/// and the key text otherwise.
pub open spec fn title_of(mode: SortMode, k: KeyView, now: u64) -> Option<Seq<char>> {
    match k {
        KeyView::Pinned => Some("Pinned"@),
        KeyView::Unpinned => None,
        KeyView::Text(s) => if mode == SortMode::Tag && s.len() == 0 {
            None
        } else {
            Some(s)
        },
        KeyView::Hour(h) => Some(age_phrase(h, now)),
    }
}

pub open spec fn opt_text(s: Option<String>) -> Option<Seq<char>> {
    match s {
        Some(t) => Some(t@),
        None => None,
    }
}

pub fn group_title(mode: SortMode, k: &GroupKey, now: u64) -> (r: Option<String>)
    ensures
        opt_text(r) == title_of(mode, k@, now),
{
    match k {
        GroupKey::Pinned => Some("Pinned".to_owned()),
        GroupKey::Unpinned => None,
        GroupKey::Text(s) => {
            if matches!(mode, SortMode::Tag) && s.unicode_len() == 0 {
                None
            } else {
                Some(s.clone())
            }
        },
        GroupKey::Hour(h) => Some(age_title(*h, now)),
    }
}

} // verus!

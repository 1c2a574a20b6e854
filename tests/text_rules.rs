use tab_groups::keys::{age_title, round_to_hour, group_title, GroupKey, SortMode};
use tab_groups::text::{compare_text, initial};

#[test]
fn hour_rounding() {
    assert_eq!(round_to_hour(0), 0);
    assert_eq!(round_to_hour(3_599_999), 0);
    assert_eq!(round_to_hour(3_600_000), 3_600_000);
    assert_eq!(round_to_hour(7_200_001), 7_200_000);
}

#[test]
fn age_phrases() {
    let h = 3_600_000;
    assert_eq!(age_title(10 * h, 10 * h + 5), "This hour");
    assert_eq!(age_title(12 * h, 10 * h), "This hour");
    assert_eq!(age_title(9 * h, 10 * h), "1 hour ago");
    assert_eq!(age_title(0, 23 * h), "23 hours ago");
    assert_eq!(age_title(0, 24 * h), "1 day ago");
    assert_eq!(age_title(0, 47 * h + 1), "1 day ago");
    assert_eq!(age_title(0, 240 * h), "10 days ago");
}

#[test]
fn initials() {
    assert_eq!(initial("apple"), "A");
    assert_eq!(initial(" \t\u{A0}zebra"), "Z");
    assert_eq!(initial("éclair"), "é");
    assert_eq!(initial("   "), "");
    assert_eq!(initial(""), "");
}

#[test]
fn text_order() {
    assert_eq!(compare_text("", "a"), -1);
    assert_eq!(compare_text("ab", "a"), 1);
    assert_eq!(compare_text("B", "a"), -1);
    assert_eq!(compare_text("same", "same"), 0);
    assert_eq!(compare_text("é", "z"), 1);
}

#[test]
fn group_titles_by_key() {
    assert_eq!(group_title(SortMode::Window, &GroupKey::Pinned, 0).as_deref(), Some("Pinned"));
    assert_eq!(group_title(SortMode::Window, &GroupKey::Unpinned, 0), None);
    assert_eq!(group_title(SortMode::Tag, &GroupKey::Text(String::new()), 0), None);
    assert_eq!(group_title(SortMode::Name, &GroupKey::Text(String::new()), 0).as_deref(), Some(""));
    assert_eq!(group_title(SortMode::Url, &GroupKey::Text("https://a.com".to_string()), 0).as_deref(), Some("https://a.com"));
}

use dr::tags::{find_tag, track_title, Tag, TagKey};

fn tag(key: TagKey, value: &str) -> Tag {
    Tag { key, value: value.to_string() }
}

#[test]
fn first_matching_tag_wins() {
    let tags = vec![
        tag(TagKey::Other, "x"),
        tag(TagKey::Album, "First Album"),
        tag(TagKey::TrackTitle, "Song"),
        tag(TagKey::Album, "Second Album"),
    ];
    assert_eq!(find_tag(&tags, TagKey::Album), Some("First Album".to_string()));
    assert_eq!(track_title(&tags, "stem".to_string()), "Song");
}

#[test]
fn title_falls_back_to_stem() {
    let tags = vec![tag(TagKey::Album, "A")];
    assert_eq!(track_title(&tags, "01-track".to_string()), "01-track");
    assert_eq!(find_tag(&vec![], TagKey::Album), None);
}

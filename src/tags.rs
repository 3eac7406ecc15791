//! Choosing a track's title and album from its metadata tags: the first
//! tag with the wanted key wins.

use vstd::prelude::*;

verus! {

/// The tag keys that matter here.
#[derive(Clone, Copy, Debug, PartialEq, Eq, Structural)]
pub enum TagKey {
    TrackTitle,
    Album,
    Other,
}

/// One metadata tag.
#[derive(Clone, Debug)]
pub struct Tag {
    pub key: TagKey,
    pub value: String,
}

/// The value of the first tag from position `i` on whose key is `key`.
pub open spec fn first_value_from(tags: Seq<Tag>, key: TagKey, i: int) -> Option<Seq<char>>
    decreases tags.len() - i,
{
    if i < 0 || i >= tags.len() {
        None
    } else if tags[i].key == key {
        Some(tags[i].value@)
    } else {
        first_value_from(tags, key, i + 1)
    }
}

/// The value of the first tag whose key is `key`.
pub open spec fn first_value(tags: Seq<Tag>, key: TagKey) -> Option<Seq<char>> {
    first_value_from(tags, key, 0)
}

/// The value of the first tag with key `key`, if any.
pub fn find_tag(tags: &Vec<Tag>, key: TagKey) -> (r: Option<String>)
    ensures
        match first_value(tags@, key) {
            Some(v) => r matches Some(s) && s@ == v,
            None => r is None,
        },
{
    let mut i: usize = 0;
    while i < tags.len()
        invariant
            i <= tags@.len(),
            first_value(tags@, key) == first_value_from(tags@, key, i as int),
        decreases tags@.len() - i,
    {
        if tags[i].key == key {
            return Some(tags[i].value.clone());
        }
        i = i + 1;
    }
    None
}

/// The track title: the first `TrackTitle` tag, else `fallback` (the file
/// name's stem).
pub fn track_title(tags: &Vec<Tag>, fallback: String) -> (r: String)
    ensures
        r@ == match first_value(tags@, TagKey::TrackTitle) {
            Some(v) => v,
            None => fallback@,
        },
{
    match find_tag(tags, TagKey::TrackTitle) {
        Some(t) => t,
        None => fallback,
    }
}

} // verus!

//! The attribute names that the neutral filter names stand for on each
//! platform: the Android (`uiautomator`) name first, then the iOS
//! (`XCUITest`) one.

use vstd::prelude::*;

verus! {

/// The views of a sequence of string slices.
pub open spec fn str_views(s: Seq<&str>) -> Seq<Seq<char>> {
    Seq::new(s.len(), |i: int| s[i]@)
}

/// `--id`: `resource-id` on Android, `name` on iOS.
pub open spec fn id_names() -> Seq<Seq<char>> {
    seq!["resource-id"@, "name"@]
}

/// `--text`: `text` on Android, `label` on iOS.
pub open spec fn text_names() -> Seq<Seq<char>> {
    seq!["text"@, "label"@]
}

/// `--class`: `class` on Android, `type` on iOS.
pub open spec fn class_names() -> Seq<Seq<char>> {
    seq!["class"@, "type"@]
}

/// `--content-desc`: `content-desc` on Android, `value` on iOS.
pub open spec fn content_desc_names() -> Seq<Seq<char>> {
    seq!["content-desc"@, "value"@]
}

/// The bounds of an element on screen, on both platforms.
pub open spec fn bounds_names() -> Seq<Seq<char>> {
    seq!["bounds"@]
}

/// The attribute names for `--id`.
pub fn id_keys() -> (r: Vec<&'static str>)
    ensures
        str_views(r@) == id_names(),
{
    let r = vec!["resource-id", "name"];
    assert(str_views(r@) =~= id_names());
    r
}

/// The attribute names for `--text`.
pub fn text_keys() -> (r: Vec<&'static str>)
    ensures
        str_views(r@) == text_names(),
{
    let r = vec!["text", "label"];
    assert(str_views(r@) =~= text_names());
    r
}

/// The attribute names for `--class`.
pub fn class_keys() -> (r: Vec<&'static str>)
    ensures
        str_views(r@) == class_names(),
{
    let r = vec!["class", "type"];
    assert(str_views(r@) =~= class_names());
    r
}

/// The attribute names for `--content-desc`.
pub fn content_desc_keys() -> (r: Vec<&'static str>)
    ensures
        str_views(r@) == content_desc_names(),
{
    let r = vec!["content-desc", "value"];
    assert(str_views(r@) =~= content_desc_names());
    r
}

/// The attribute name of the bounds.
pub fn bounds_keys() -> (r: Vec<&'static str>)
    ensures
        str_views(r@) == bounds_names(),
{
    let r = vec!["bounds"];
    assert(str_views(r@) =~= bounds_names());
    r
}

} // verus!

//! Links and fixed metadata for the syndication feeds built on the store.

use vstd::prelude::*;

verus! {

pub const COPYRIGHT: &'static str = "CC BY-SA 4.0";

pub const DESCRIPTION: &'static str = TITLE;

pub const LANGUAGE: &'static str = "en";

pub const TITLE: &'static str = "Louis Opter (kalessin) :: Blog";

pub const BASE_URL: &'static str = "https://www.kalessin.fr";

pub const BLOG_PATH: &'static str = "/blog";

/// The public address of the blog index, or of one post when a slug is given.
pub fn blog_link(slug: Option<&str>) -> (r: String)
    ensures
        match slug {
            Some(s) => r@ == BASE_URL@ + BLOG_PATH@ + "/"@ + s@,
            None => r@ == BASE_URL@ + BLOG_PATH@,
        },
{
    match slug {
        Some(s) => String::from_str(BASE_URL).concat(BLOG_PATH).concat("/").concat(s),
        None => String::from_str(BASE_URL).concat(BLOG_PATH),
    }
}

/// The public address of the feed with the given format name.
pub fn feed_link(name: &str) -> (r: String)
    ensures
        r@ == BASE_URL@ + BLOG_PATH@ + "/feed."@ + name@,
{
    String::from_str(BASE_URL).concat(feed_path(name).as_str())
}

/// The path, under the site root, of the feed with the given format name.
pub fn feed_path(name: &str) -> (r: String)
    ensures
        r@ == BLOG_PATH@ + "/feed."@ + name@,
{
    String::from_str(BLOG_PATH).concat("/feed.").concat(name)
}

} // verus!

use blogon::errors::Error;
use blogon::front_matter::FrontMatter;
use blogon::post::{MdKind, toc_from_kinds};
use blogon::scan::HeaderScanner;
use blogon::store::{Store, document_for_entry, front_matter_from_bytes, render};
use blogon::Date;
use blogon::Metadata;

const TOC_DOC: &[u8] = b"---\ntitle: Table of contents\n---\n\
# One\n\n## Two\n\n#### Four\n\n### Three\n\n## Two again\n";

#[test]
fn render_gives_numbered_toc() {
    let post = render(TOC_DOC, "0001_toc", "0001_toc.md")
        .unwrap()
        .unwrap();
    assert_eq!(5, post.toc.len());
    assert_eq!([1u16, 0, 0, 0, 0, 0], post.toc[0].path);
    assert_eq!([1u16, 1, 0, 0, 0, 0], post.toc[1].path);
    assert_eq!([1u16, 1, 0, 1, 0, 0], post.toc[2].path);
    assert_eq!([1u16, 1, 1, 0, 0, 0], post.toc[3].path);
    assert_eq!([1u16, 2, 0, 0, 0, 0], post.toc[4].path);
    assert_eq!("One", post.toc[0].name);
    assert_eq!("Two again", post.toc[4].name);
    assert_eq!("0001-toc", post.front_matter.slug);
}

fn heading(level: u8) -> Vec<MdKind> {
    vec![
        MdKind::HeadingStart(level),
        MdKind::Text(String::from("h")),
        MdKind::HeadingEnd(level),
    ]
}

#[test]
fn deep_jumps_skip_and_shallow_jumps_reset() {
    // Depths 1, 2, 4, 3, 1, 2: the jump to 4 advances without touching
    // depth 3; the fall back to 3 zeroes everything deeper; the fall
    // back to 1 zeroes everything deeper than 1.
    let mut kinds: Vec<MdKind> = Vec::new();
    for level in [1u8, 2, 4, 3, 1, 2] {
        kinds.extend(heading(level));
    }
    let toc = toc_from_kinds(&kinds);
    assert_eq!(6, toc.len());
    assert_eq!([1u16, 0, 0, 0, 0, 0], toc[0].path);
    assert_eq!([1u16, 1, 0, 0, 0, 0], toc[1].path);
    assert_eq!([1u16, 1, 0, 1, 0, 0], toc[2].path);
    assert_eq!([1u16, 1, 1, 0, 0, 0], toc[3].path);
    assert_eq!([2u16, 0, 0, 0, 0, 0], toc[4].path);
    assert_eq!([2u16, 1, 0, 0, 0, 0], toc[5].path);
}

#[test]
fn rendering_twice_is_identical() {
    let first = render(TOC_DOC, "0001_toc", "0001_toc.md")
        .unwrap()
        .unwrap();
    let second = render(TOC_DOC, "0001_toc", "0001_toc.md")
        .unwrap()
        .unwrap();
    assert_eq!(first.toc, second.toc);
    assert_eq!(first.html_body, second.html_body);
}

#[test]
fn rendered_body_carries_anchors() {
    let post = render(b"---\ntitle: t\n---\n# Hello World\n", "0002_x", "p")
        .unwrap()
        .unwrap();
    assert_eq!("1-hello-world", post.toc[0].html_id());
    assert!(post.html_body.contains("<h1>"));
    assert!(post
        .html_body
        .contains("<a href=\"#1-hello-world\" id=\"1-hello-world\">"));
    assert!(post.html_body.contains("<span class=\"heading-anchor\">#</span>"));
}

fn entry(slug: &str, date: Option<Date>) -> FrontMatter {
    FrontMatter {
        slug: String::from(slug),
        metadata: Metadata {
            date,
            tags: Vec::new(),
            title: String::from(slug),
        },
    }
}

#[test]
fn production_listing_excludes_drafts_and_orders_newest_first() {
    let store = Store::new(String::from("posts"), true);
    let entries = vec![
        entry("0001-old", Some(Date { year: 2024, month: 1, day: 1 })),
        entry("0002-new", Some(Date { year: 2024, month: 6, day: 1 })),
        entry("0003-draft", None),
    ];
    let index = store.index_entries(entries);
    assert_eq!(2, index.len());
    assert_eq!("0002-new", index[0].slug);
    assert_eq!("0001-old", index[1].slug);
}

#[test]
fn development_listing_keeps_drafts_after_dated_in_descending_slug_order() {
    let store = Store::new(String::from("posts"), false);
    let entries = vec![
        entry("0004-a-draft", None),
        entry("0001-old", Some(Date { year: 2024, month: 1, day: 1 })),
        entry("0005-b-draft", None),
        entry("0002-new", Some(Date { year: 2024, month: 6, day: 1 })),
    ];
    let index = store.index_entries(entries);
    assert_eq!(4, index.len());
    assert_eq!("0002-new", index[0].slug);
    assert_eq!("0001-old", index[1].slug);
    assert_eq!("0005-b-draft", index[2].slug);
    assert_eq!("0004-a-draft", index[3].slug);
}

#[test]
fn single_boundary_is_missing_front_matter() {
    let result = front_matter_from_bytes(b"---\ntitle: x\nno closing boundary\n", "s", "p.md");
    match result {
        Err(Error::Deserialize { error, path }) => {
            assert_eq!("front matter is missing", error);
            assert_eq!("p.md", path);
        }
        other => panic!("expected a missing front matter error, got {:?}", other),
    }
}

#[test]
fn no_boundary_at_all_is_missing_front_matter() {
    let result = front_matter_from_bytes(b"just a plain file\n", "s", "p.md");
    assert!(matches!(result, Err(Error::Deserialize { .. })));
}

#[test]
fn header_span_is_chunk_independent() {
    let doc: &[u8] = b"preamble\n---\t \ntitle: x\n--- \nbody text\n";
    let mut whole = HeaderScanner::new();
    whole.feed(doc);
    for size in [1usize, 2, 3, 5, 7, 1024] {
        let mut scanner = HeaderScanner::new();
        for chunk in doc.chunks(size) {
            scanner.feed(chunk);
        }
        assert_eq!(whole.parts(), scanner.parts());
    }
    let (o, c, e) = whole.parts().unwrap();
    assert_eq!(b"title: x\n", &doc[o..c]);
    assert_eq!(b"body text\n", &doc[e..]);
}

#[test]
fn four_hyphens_are_no_boundary() {
    let result = front_matter_from_bytes(b"----\ntitle: x\n----\n", "s", "p");
    assert!(matches!(result, Err(Error::Deserialize { .. })));
}

#[test]
fn header_with_invalid_text_is_malformed() {
    let result = front_matter_from_bytes(b"---\n\xff\xfe\n---\n", "s", "p");
    match result {
        Err(Error::Deserialize { error, .. }) => assert_eq!("invalid utf-8", error),
        other => panic!("expected a malformed content error, got {:?}", other),
    }
}

#[test]
fn directory_entries_resolve_to_their_post_file() {
    let resolved = document_for_entry("0001_first_post.md", false);
    assert_eq!(
        Some((String::from("0001_first_post.md"), String::from("0001_first_post"))),
        resolved
    );
    let dir = document_for_entry("a-directory", true);
    assert_eq!(
        Some((String::from("a-directory/post.md"), String::from("post"))),
        dir
    );
}

#[test]
fn entries_outside_the_convention_are_skipped() {
    assert_eq!(None, document_for_entry("123_too_few.md", false));
    assert_eq!(None, document_for_entry("0001_not_markdown.txt", false));
    assert_eq!(None, document_for_entry("readme.md", false));
    assert_eq!(None, document_for_entry("0001", false));
}

#[test]
fn empty_metadata_block_does_not_conform() {
    let result = front_matter_from_bytes(b"---\n---\nbody\n", "s", "p");
    assert!(matches!(result, Err(Error::Deserialize { .. })));
}

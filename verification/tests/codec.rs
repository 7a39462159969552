use blogon::date::parse_date;
use blogon::errors::Error;
use blogon::feeds::{blog_link, feed_link, feed_path};
use blogon::front_matter::front_matter_of;
use blogon::num::decimal_string;
use blogon::post::{anchor_html, Heading, HeadingLevel, InvalidHeadingLevel};
use blogon::slugs::filename_for_slug;
use blogon::Date;

fn slug_of_stem(stem: &str) -> String {
    front_matter_of("title: t\n", stem).unwrap().slug
}

#[test]
fn slugs_round_trip_for_conventional_stems() {
    let slug = slug_of_stem("0001_first_post");
    assert_eq!("0001-first-post", slug);
    let name = filename_for_slug(&slug).unwrap();
    assert_eq!("0001_first_post.md", name);
}

#[test]
fn slug_derivation_lowers_folds_and_collapses() {
    assert_eq!("my-test-string-1-1", slug_of_stem("My Test String!!!1!1"));
    assert_eq!("test-it-now", slug_of_stem("test\nit   now!"));
    assert_eq!("test-cool", slug_of_stem("  --test_-_cool"));
    assert_eq!("aeuu-cool", slug_of_stem("Æúű--cool?"));
}

#[test]
fn slug_without_leading_number_is_not_found() {
    match filename_for_slug("abc") {
        Err(Error::NotFound { slug, .. }) => assert_eq!("abc", slug),
        other => panic!("expected a lookup miss, got {:?}", other),
    }
    assert!(matches!(filename_for_slug(""), Err(Error::NotFound { .. })));
    assert!(matches!(filename_for_slug("-abc"), Err(Error::NotFound { .. })));
    assert!(matches!(
        filename_for_slug("99999999999999999999-x"),
        Err(Error::NotFound { .. })
    ));
}

#[test]
fn slug_numbers_are_zero_padded_to_four_digits() {
    assert_eq!("0001_a.md", filename_for_slug("1-a").unwrap());
    assert_eq!("0042_a_b.md", filename_for_slug("42-a-b").unwrap());
    assert_eq!("12345_x.md", filename_for_slug("12345-x").unwrap());
    assert_eq!("0007_.md", filename_for_slug("7").unwrap());
    assert_eq!("0005_x.md", filename_for_slug("+5-x").unwrap());
    assert_eq!("0000_x.md", filename_for_slug("0-x").unwrap());
}

#[test]
fn dates_parse_only_real_calendar_days() {
    assert_eq!(
        Some(Date { year: 2024, month: 2, day: 29 }),
        parse_date("2024-02-29")
    );
    assert_eq!(None, parse_date("2023-02-29"));
    assert_eq!(None, parse_date("2024-13-01"));
    assert_eq!(None, parse_date("2024-00-10"));
    assert_eq!(None, parse_date("2024-1-1"));
    assert_eq!(None, parse_date("24-01-01"));
    assert_eq!(None, parse_date("2100-02-29"));
    assert_eq!(None, parse_date("2024-04-31"));
    assert_eq!(
        Some(Date { year: 2024, month: 4, day: 30 }),
        parse_date("2024-04-30")
    );
    assert_eq!(
        Some(Date { year: 2000, month: 2, day: 29 }),
        parse_date("2000-02-29")
    );
}

#[test]
fn dates_render_back_to_their_text() {
    let date = parse_date("2024-06-01").unwrap();
    assert_eq!("2024-06-01", date.render());
    assert!(parse_date("2024-01-31").unwrap().is_before(&date));
    assert!(!date.is_before(&date));
}

#[test]
fn front_matter_decodes_title_date_and_tags() {
    let fm = front_matter_of(
        "title: A post\ndate: 2024-06-01\ntags: [one, two]\n",
        "0001_a_post",
    )
    .unwrap();
    assert_eq!("A post", fm.metadata.title);
    assert_eq!(Some(Date { year: 2024, month: 6, day: 1 }), fm.metadata.date);
    assert_eq!(vec![String::from("one"), String::from("two")], fm.metadata.tags);
    assert_eq!("0001-a-post", fm.slug);
}

#[test]
fn front_matter_tags_keep_document_order() {
    let fm = front_matter_of("title: t\ntags:\n  - zebra\n  - apple\n", "s").unwrap();
    assert_eq!(vec![String::from("zebra"), String::from("apple")], fm.metadata.tags);
}

#[test]
fn absent_date_null_date_and_null_text_mean_draft() {
    assert_eq!(None, front_matter_of("title: t\n", "s").unwrap().metadata.date);
    assert_eq!(None, front_matter_of("title: t\ndate: null\n", "s").unwrap().metadata.date);
    assert_eq!(
        None,
        front_matter_of("title: t\ndate: \"null\"\n", "s").unwrap().metadata.date
    );
}

#[test]
fn malformed_front_matter_is_rejected() {
    assert!(front_matter_of("tags: [a]\n", "s").is_err());
    assert!(front_matter_of("title: t\ndate: yesterday\n", "s").is_err());
    assert!(front_matter_of("title: t\ndate: [2024]\n", "s").is_err());
    assert!(front_matter_of("title: t\ntags: nope\n", "s").is_err());
    assert!(front_matter_of("title: [not, text]\n", "s").is_err());
    assert!(front_matter_of("- just\n- a list\n", "s").is_err());
    assert!(front_matter_of(": [ not yaml", "s").is_err());
}

#[test]
fn missing_tags_default_to_empty() {
    let fm = front_matter_of("title: t\ndate: 2024-06-01\n", "s").unwrap();
    assert!(fm.metadata.tags.is_empty());
}

#[test]
fn heading_labels_and_anchor_ids() {
    let heading = Heading {
        name: String::from("Some Heading"),
        level: HeadingLevel::H2,
        path: [1, 2, 0, 0, 0, 0],
    };
    assert_eq!("1.2 Some Heading", heading.section_label());
    assert_eq!("1-2-some-heading", heading.html_id());
    assert_eq!(
        "<a href=\"#x\" id=\"x\"><span class=\"heading-anchor\">#</span></a>",
        anchor_html("x")
    );
}

#[test]
fn heading_levels_from_numbers() {
    assert_eq!(Ok(HeadingLevel::H1), HeadingLevel::try_from(1));
    assert_eq!(Ok(HeadingLevel::H6), HeadingLevel::try_from(6));
    assert_eq!(Err(InvalidHeadingLevel(0)), HeadingLevel::try_from(0));
    assert_eq!(Err(InvalidHeadingLevel(7)), HeadingLevel::try_from(7));
    assert_eq!(3, HeadingLevel::H3.as_number());
}

#[test]
fn decimal_rendering() {
    assert_eq!("0", decimal_string(0));
    assert_eq!("12345", decimal_string(12345));
    assert_eq!("4294967295", decimal_string(u32::MAX));
}

#[test]
fn feed_addresses() {
    assert_eq!("https://www.kalessin.fr/blog", blog_link(None));
    assert_eq!("https://www.kalessin.fr/blog/0001-x", blog_link(Some("0001-x")));
    assert_eq!("/blog/feed.rss", feed_path("rss"));
    assert_eq!("https://www.kalessin.fr/blog/feed.json", feed_link("json"));
}

//! Decoding the metadata block into a catalog entry.
//!
//! The block holds a required `title`, an optional `date` (the text
//! `null`, a YAML null, or absence all mean "no date": such a document is
//! a draft), and an optional `tags` sequence whose order is kept.  The
//! slug is derived from the file stem, independently of the block.

use vstd::prelude::*;
use crate::date::{Date, date_of_str, is_date_str, parse_date};
use crate::slugs::{slug_of, slugify};
use crate::yaml::{Yaml, parse_yaml, yaml_of};

verus! {

/// What a document says about itself.  A missing `date` marks a draft.
#[derive(Debug, Clone)]
pub struct Metadata {
    pub date: Option<Date>,
    pub tags: Vec<String>,
    pub title: String,
}

/// One catalog entry: a document's slug and its metadata.
#[derive(Debug, Clone)]
pub struct FrontMatter {
    pub slug: String,
    pub metadata: Metadata,
}

/// The first value under a key equal to `key`, if any.
pub open spec fn yaml_lookup(es: Seq<(String, Yaml)>, key: Seq<char>) -> Option<Yaml>
    decreases es.len(),
{
    if es.len() == 0 {
        None
    } else if es.first().0@ == key {
        Some(es.first().1)
    } else {
        yaml_lookup(es.drop_first(), key)
    }
}

/// The texts of a list of text values, in order; nothing if any element
/// is not text.
pub open spec fn texts_of(xs: Seq<Yaml>) -> Option<Seq<Seq<char>>>
    decreases xs.len(),
{
    if xs.len() == 0 {
        Some(Seq::empty())
    } else {
        match xs.first() {
            Yaml::Text(t) => match texts_of(xs.drop_first()) {
                Some(r) => Some(seq![t@] + r),
                None => None,
            },
            _ => None,
        }
    }
}

/// What the `date` field of a mapping denotes: a date, no date (absent,
/// null, or the text `null`), or nothing when it is malformed.
pub open spec fn date_field_spec(es: Seq<(String, Yaml)>) -> Option<Option<Date>> {
    match yaml_lookup(es, "date"@) {
        None => Some(None),
        Some(Yaml::Null) => Some(None),
        Some(Yaml::Text(d)) => if d@ == "null"@ {
            Some(None)
        } else if is_date_str(d@) {
            Some(Some(date_of_str(d@)))
        } else {
            None
        },
        Some(_) => None,
    }
}

/// What the `tags` field of a mapping denotes: the tag texts in document
/// order, empty when absent, nothing when malformed.
pub open spec fn tags_field_spec(es: Seq<(String, Yaml)>) -> Option<Seq<Seq<char>>> {
    match yaml_lookup(es, "tags"@) {
        None => Some(Seq::empty()),
        Some(Yaml::List(xs)) => texts_of(xs@),
        Some(_) => None,
    }
}

/// What a parsed metadata document denotes: title, optional date and
/// tags, or nothing when it does not conform.
pub open spec fn meta_spec(y: Yaml) -> Option<(Seq<char>, Option<Date>, Seq<Seq<char>>)> {
    match y {
        Yaml::Mapping(entries) => match yaml_lookup(entries@, "title"@) {
            Some(Yaml::Text(t)) => match date_field_spec(entries@) {
                Some(d) => match tags_field_spec(entries@) {
                    Some(tags) => Some((t@, d, tags)),
                    None => None,
                },
                None => None,
            },
            _ => None,
        },
        _ => None,
    }
}

fn lookup<'a>(es: &'a Vec<(String, Yaml)>, key: &str) -> (r: Option<&'a Yaml>)
    ensures
        match r {
            Some(v) => yaml_lookup(es@, key@) == Some(*v),
            None => yaml_lookup(es@, key@) is None,
        },
{
    let mut i: usize = 0;
    proof {
        assert(es@.skip(0) =~= es@);
    }
    while i < es.len()
        invariant
            0 <= i <= es@.len(),
            yaml_lookup(es@, key@) == yaml_lookup(es@.skip(i as int), key@),
        decreases es@.len() - i,
    {
        proof {
            assert(es@.skip(i as int).first() == es@[i as int]);
            assert(es@.skip(i as int).drop_first() =~= es@.skip(i as int + 1));
        }
        let hit = es[i].0 == String::from_str(key);
        if hit {
            return Some(&es[i].1);
        }
        i = i + 1;
    }
    proof {
        assert(es@.skip(es@.len() as int).len() == 0);
    }
    None
}

/// Decode a parsed metadata document into `Metadata`.  The errors name
/// the field that does not conform.
#[verifier::loop_isolation(false)]
pub fn metadata_from_yaml(y: &Yaml) -> (r: Result<Metadata, String>)
    ensures
        match r {
            Ok(m) => meta_spec(*y) == Some((m.title@, m.date, m.tags.deep_view())),
            Err(_) => meta_spec(*y) is None,
        },
{
    let entries = match y {
        Yaml::Mapping(entries) => entries,
        _ => {
            return Err(String::from_str("the front matter is not a key/value mapping"));
        },
    };
    let title = match lookup(entries, "title") {
        Some(Yaml::Text(t)) => t.clone(),
        _ => {
            return Err(String::from_str("the front matter has no text under the title key"));
        },
    };
    let date = match lookup(entries, "date") {
        None => None,
        Some(Yaml::Null) => None,
        Some(Yaml::Text(d)) => {
            if *d == String::from_str("null") {
                None
            } else {
                match parse_date(d.as_str()) {
                    Some(parsed) => Some(parsed),
                    None => {
                        return Err(
                            String::from_str(
                                "the date is not of the form YYYY-MM-DD, null, or absent",
                            ),
                        );
                    },
                }
            }
        },
        Some(_) => {
            return Err(String::from_str("the date is not text"));
        },
    };
    let tags = match lookup(entries, "tags") {
        None => Vec::new(),
        Some(Yaml::List(xs)) => {
            let mut tags: Vec<String> = Vec::new();
            let mut i: usize = 0;
            proof {
                assert(xs@.skip(0) =~= xs@);
                assert(tags.deep_view() + texts_of(xs@)->Some_0 =~= texts_of(xs@)->Some_0);
            }
            while i < xs.len()
                invariant
                    0 <= i <= xs@.len(),
                    texts_of(xs@) is Some ==> texts_of(xs@.skip(i as int)) is Some,
                    texts_of(xs@.skip(i as int)) matches Some(r) ==> texts_of(xs@) matches Some(
                        full,
                    ) && full =~= tags.deep_view() + r,
                    texts_of(xs@) is None ==> texts_of(xs@.skip(i as int)) is None,
                decreases xs@.len() - i,
            {
                proof {
                    assert(xs@.skip(i as int).first() == xs@[i as int]);
                    assert(xs@.skip(i as int).drop_first() =~= xs@.skip(i as int + 1));
                }
                match &xs[i] {
                    Yaml::Text(t) => {
                        tags.push(t.clone());
                    },
                    _ => {
                        return Err(String::from_str("the tags are not a sequence of text"));
                    },
                }
                i = i + 1;
            }
            proof {
                assert(xs@.skip(xs@.len() as int).len() == 0);
                assert(texts_of(xs@.skip(xs@.len() as int)) == Some(Seq::<Seq<char>>::empty()));
                assert(tags.deep_view() + Seq::<Seq<char>>::empty() =~= tags.deep_view());
            }
            tags
        },
        Some(_) => {
            return Err(String::from_str("the tags are not a sequence"));
        },
    };
    Ok(Metadata { date, tags, title })
}

/// What a metadata block's text denotes: title, optional date and tags,
/// or nothing when the text is not well-formed or does not conform.
pub open spec fn front_matter_ok(header: Seq<char>) -> Option<(Seq<char>, Option<Date>, Seq<
    Seq<char>,
>)> {
    match yaml_of(header) {
        Some(y) => meta_spec(y),
        None => None,
    }
}

/// Decode a metadata block and derive the slug from the file stem.  The
/// error says what does not conform; the caller adds the file's path.
pub fn front_matter_of(header: &str, stem: &str) -> (r: Result<FrontMatter, String>)
    ensures
        match r {
            Ok(fm) => {
                &&& front_matter_ok(header@) matches Some((t, d, tags)) && fm.metadata.title@ == t
                    && fm.metadata.date == d && fm.metadata.tags.deep_view() == tags
                &&& fm.slug@ == slug_of(stem@)
                &&& fm.metadata.date matches Some(dd) ==> dd.wf()
            },
            Err(_) => front_matter_ok(header@) is None,
        },
{
    let yaml = match parse_yaml(header) {
        Ok(y) => y,
        Err(msg) => {
            let mut text = String::from_str("front matter is not valid YAML: ");
            text.append(msg.as_str());
            return Err(text);
        },
    };
    let metadata = match metadata_from_yaml(&yaml) {
        Ok(m) => m,
        Err(msg) => {
            return Err(msg);
        },
    };
    Ok(FrontMatter { slug: slugify(stem), metadata })
}

} // verus!

//! The markdown event stream of a document body.
//!
//! Parsing markdown is the outside parser's work.  Each event it yields
//! is opaque here, but is classified on arrival into [`MdKind`], the
//! plain shape the store reads: heading starts and ends, text and code
//! runs, inline formatting, or anything else.  The table of contents is
//! computed from the classifications; the permalink anchors are spliced
//! into the opaque event stream at the verified positions; serializing
//! the spliced stream to HTML is the outside crate's work again.

use vstd::prelude::*;
use pulldown_cmark::{Event, Tag, TagEnd};
use crate::post::{MdKind, count_ends, heading_events_balanced, kind_wf, lemma_count_ends_take};

verus! {

#[verifier::external_type_specification]
#[verifier::external_body]
pub struct ExEvent<'a>(Event<'a>);

/// The classifications of the events that parsing a text yields, in
/// order.  Markdown's grammar takes pages to state, so the sequence is
/// named rather than spelled out; the parse depends on the text alone.
pub uninterp spec fn md_kinds_of(s: Seq<char>) -> Seq<MdKind>;

/// Relies on pulldown_cmark::Event, Tag and TagEnd: tells the variants
/// the store reads apart, one arm each; heading levels are one through
/// six by construction.
#[verifier::external_body]
fn classify_event(e: &Event<'static>) -> (k: MdKind)
    ensures
        kind_wf(k),
{
    match e {
        Event::Start(Tag::Heading { level, .. }) => MdKind::HeadingStart(*level as u8),
        Event::End(TagEnd::Heading(level)) => MdKind::HeadingEnd(*level as u8),
        Event::Text(s) => MdKind::Text(s.to_string()),
        Event::Code(s) => MdKind::Code(s.to_string()),
        Event::Start(Tag::Emphasis) | Event::End(TagEnd::Emphasis) | Event::Start(Tag::Strong)
        | Event::End(TagEnd::Strong) | Event::Start(Tag::Strikethrough)
        | Event::End(TagEnd::Strikethrough) => MdKind::Formatting,
        _ => MdKind::Other,
    }
}

/// Relies on pulldown_cmark::Parser::new_ext with every extension
/// enabled: parses a body into events, a function of the text alone; the
/// second vector classifies the event at each index.  Start and end
/// events are balanced, and a heading never holds another heading, so
/// the heading events pair up.
#[verifier::external_body]
pub(crate) fn parse_markdown(body: &str) -> (r: (Vec<Event<'static>>, Vec<MdKind>))
    ensures
        r.1@ == md_kinds_of(body@),
        r.0@.len() == r.1@.len(),
        forall|i: int| 0 <= i < r.1@.len() ==> kind_wf(#[trigger] r.1@[i]),
        heading_events_balanced(r.1@),
{
    let events: Vec<Event<'static>> = pulldown_cmark::Parser::new_ext(
        body,
        pulldown_cmark::Options::all(),
    ).map(Event::into_static).collect();
    let kinds: Vec<MdKind> = events.iter().map(classify_event).collect();
    (events, kinds)
}

/// Relies on Event::clone: the clone is the same value.
#[verifier::external_body]
fn clone_event(e: &Event<'static>) -> (r: Event<'static>)
    ensures
        r == *e,
{
    e.clone()
}

/// Relies on Event::Text and CowStr::from: wraps text in a text event.
#[verifier::external_body]
fn text_event(s: &str) -> Event<'static> {
    Event::Text(pulldown_cmark::CowStr::from(s.to_string()))
}

/// Relies on Event::Html and CowStr::from: wraps inline HTML in an
/// event.
#[verifier::external_body]
fn html_event(s: &str) -> Event<'static> {
    Event::Html(pulldown_cmark::CowStr::from(s.to_string()))
}

/// Relies on pulldown_cmark::html::push_html: serializes an event
/// stream to HTML, into a string grown from the given capacity.
#[verifier::external_body]
pub(crate) fn events_to_html(events: Vec<Event<'static>>, capacity: usize) -> String {
    let mut html = String::with_capacity(capacity);
    pulldown_cmark::html::push_html(&mut html, events.into_iter());
    html
}

/// Splice a permalink anchor after each heading end: a separating space
/// as a text event, then the anchor as an inline HTML event, built from
/// the matching identifier.  Every original event keeps its order; the
/// one at index `i` moves to index `i` plus two for each heading end
/// before it.
pub fn add_section_anchors(
    events: &Vec<Event<'static>>,
    kinds: &Vec<MdKind>,
    ids: &Vec<String>,
) -> (out: Vec<Event<'static>>)
    requires
        kinds@.len() == events@.len(),
        ids@.len() == count_ends(kinds@),
    ensures
        out@.len() == events@.len() + 2 * count_ends(kinds@),
        forall|i: int|
            #![trigger kinds@.take(i)]
            0 <= i < events@.len() ==> out@[i + 2 * count_ends(kinds@.take(i))] == events@[i],
{
    let mut out: Vec<Event<'static>> = Vec::new();
    let mut next_anchor: usize = 0;
    let mut i: usize = 0;
    proof {
        lemma_count_ends_take(kinds@, 0);
        assert(kinds@.take(kinds@.len() as int) =~= kinds@);
    }
    while i < events.len()
        invariant
            0 <= i <= events@.len(),
            kinds@.len() == events@.len(),
            ids@.len() == count_ends(kinds@),
            next_anchor == count_ends(kinds@.take(i as int)),
            out@.len() == i + 2 * count_ends(kinds@.take(i as int)),
            forall|m: int|
                #![trigger kinds@.take(m)]
                0 <= m < i ==> (m + 2 * count_ends(kinds@.take(m)) < out@.len() && out@[m + 2
                    * count_ends(kinds@.take(m))] == events@[m]),
        decreases events@.len() - i,
    {
        proof {
            lemma_count_ends_take(kinds@, i as int);
            lemma_count_ends_take(kinds@, i as int + 1);
            assert(kinds@.take(i as int + 1).drop_last() =~= kinds@.take(i as int));
            assert(kinds@.take(i as int + 1).last() == kinds@[i as int]);
        }
        let ghost out0 = out@;
        out.push(clone_event(&events[i]));
        let is_end = match &kinds[i] {
            MdKind::HeadingEnd(_) => true,
            _ => false,
        };
        if is_end {
            proof {
                assert(count_ends(kinds@.take(i as int + 1)) == count_ends(kinds@.take(i as int))
                    + 1);
                vstd::std_specs::vec::axiom_spec_len(ids);
                assert(next_anchor < ids@.len() <= usize::MAX);
            }
            out.push(text_event(" "));
            let anchor = crate::post::anchor_html(ids[next_anchor].as_str());
            out.push(html_event(anchor.as_str()));
            next_anchor = next_anchor + 1;
        }
        proof {
            assert(out@.subrange(0, out0.len() as int) =~= out0);
            assert forall|m: int|
                #![trigger kinds@.take(m)]
                0 <= m < i + 1 implies (m + 2 * count_ends(kinds@.take(m))
                < out@.len() && out@[m + 2 * count_ends(kinds@.take(m))] == events@[m]) by {
                if m < i {
                    lemma_count_ends_take(kinds@, m);
                    assert(m + 2 * count_ends(kinds@.take(m)) < out0.len());
                    assert(out0[m + 2 * count_ends(kinds@.take(m))] == events@[m]);
                    let pos = m + 2 * count_ends(kinds@.take(m));
                    assert(0 <= pos < out0.len());
                    assert(out0[pos] == out@.subrange(0, out0.len() as int)[pos]);
                    assert(out@.subrange(0, out0.len() as int)[pos] == out@[pos]);
                } else {
                    assert(out@[i + 2 * count_ends(kinds@.take(i as int))] == events@[i as int]);
                }
            }
        }
        i = i + 1;
    }
    proof {
        assert(kinds@.take(events@.len() as int) =~= kinds@);
    }
    out
}

} // verus!

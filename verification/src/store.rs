//! The content store's two operations, on plain values.
//!
//! The store is stateless: a value of [`Store`] holds only the document
//! directory's path and whether drafts are excluded.  All reading of
//! directories and files is the caller's: the caller hands in entry
//! names and file bytes, and gets back decisions and fully built values.

use vstd::prelude::*;
use vstd::multiset::Multiset;
use vstd::utf8::{decode_utf8, valid_utf8};
use crate::errors::Error;
use crate::front_matter::{FrontMatter, front_matter_of, front_matter_ok};
use crate::index::{catalog_sorted, fm_wf, sort_entries};
use crate::md::{add_section_anchors, events_to_html, md_kinds_of, parse_markdown};
use crate::num::is_digit;
use crate::post::{MdKind, Post, count_ends, heading_views, lemma_balanced_toc_len, toc_from_kinds, toc_spec};
use crate::scan::{find_header, header_parts};
use crate::slugs::slug_of;

verus! {

/// The content store: a document directory and an execution mode.  In
/// production mode, entries without a date (drafts) are left out of the
/// catalog.
#[derive(Debug, Clone)]
pub struct Store {
    path: String,
    is_running_in_prod: bool,
}

impl Store {
    /// The document directory this store reads.
    pub closed spec fn root(&self) -> Seq<char> {
        self.path@
    }

    /// Whether drafts are excluded.
    pub closed spec fn production(&self) -> bool {
        self.is_running_in_prod
    }

    pub fn new(path: String, is_running_in_prod: bool) -> (r: Store)
        ensures
            r.root() == path@,
            r.production() == is_running_in_prod,
    {
        Store { path, is_running_in_prod }
    }

    /// The document directory, for the caller that reads it.
    pub fn path(&self) -> (r: &str)
        ensures
            r@ == self.root(),
    {
        self.path.as_str()
    }

    /// Whether drafts are excluded.
    pub fn is_running_in_prod(&self) -> (r: bool)
        ensures
            r == self.production(),
    {
        self.is_running_in_prod
    }

    /// Which of the decoded entries the catalog keeps for this store.
    pub open spec fn kept(&self) -> spec_fn(FrontMatter) -> bool {
        let prod = self.production();
        |fm: FrontMatter| !prod || fm.metadata.date is Some
    }

    /// Order the decoded entries into the catalog: in production mode
    /// drop the drafts; then dated entries newest first, dateless
    /// entries after them by slug descending.
    pub fn index_entries(&self, entries: Vec<FrontMatter>) -> (r: Vec<FrontMatter>)
        requires
            forall|i: int| 0 <= i < entries@.len() ==> fm_wf(#[trigger] entries@[i]),
        ensures
            r@.to_multiset() == entries@.filter(self.kept()).to_multiset(),
            catalog_sorted(r@),
    {
        broadcast use vstd::seq_lib::group_to_multiset_ensures;

        let ghost pred = self.kept();
        let ghost orig = entries@;
        let mut src = entries;
        let mut keep: Vec<FrontMatter> = Vec::new();
        proof {
            reveal(Seq::filter);
            assert(keep@.to_multiset() =~= Multiset::<FrontMatter>::empty());
            assert(keep@.to_multiset().add(src@.filter(pred).to_multiset()) =~= orig.filter(
                pred,
            ).to_multiset());
        }
        while src.len() > 0
            invariant
                pred == self.kept(),
                keep@.to_multiset().add(src@.filter(pred).to_multiset()) == orig.filter(
                    pred,
                ).to_multiset(),
                forall|k: int| 0 <= k < src@.len() ==> fm_wf(#[trigger] src@[k]),
                forall|k: int| 0 <= k < keep@.len() ==> fm_wf(#[trigger] keep@[k]),
            decreases src@.len(),
        {
            let ghost before = src@;
            let next = src.pop();
            let entry = match next {
                Some(entry) => entry,
                None => {
                    proof {
                        assert(false);
                    }
                    return keep;
                },
            };
            proof {
                reveal(Seq::filter);
                assert(before.drop_last() =~= src@);
                assert(before.last() == entry);
            }
            let wanted = if self.is_running_in_prod {
                match &entry.metadata.date {
                    Some(_) => true,
                    None => false,
                }
            } else {
                true
            };
            proof {
                assert(wanted == pred(entry));
            }
            if wanted {
                proof {
                    reveal(Seq::filter);
                    assert(before.filter(pred) =~= src@.filter(pred).push(entry));
                    src@.filter(pred).to_multiset_ensures();
                    assert(src@.filter(pred).push(entry).to_multiset() =~= src@.filter(
                        pred,
                    ).to_multiset().insert(entry));
                    keep@.to_multiset_ensures();
                    assert(keep@.push(entry).to_multiset() =~= keep@.to_multiset().insert(entry));
                    assert(keep@.to_multiset().insert(entry).add(src@.filter(
                        pred,
                    ).to_multiset()) =~= keep@.to_multiset().add(src@.filter(
                        pred,
                    ).to_multiset().insert(entry)));
                }
                keep.push(entry);
            } else {
                proof {
                    reveal(Seq::filter);
                    assert(before.filter(pred) =~= src@.filter(pred));
                }
            }
        }
        proof {
            assert(src@.len() == 0);
            assert(src@.filter(pred) =~= Seq::<FrontMatter>::empty());
            assert(keep@.to_multiset() =~= orig.filter(pred).to_multiset());
        }
        let sorted = sort_entries(keep);
        proof {
            assert(sorted@.to_multiset() == orig.filter(pred).to_multiset());
        }
        sorted
    }
}

/// Where a run of decimal digits beginning at `i` ends.
pub open spec fn digit_run(s: Seq<char>, i: int) -> int
    decreases s.len() - i,
        when 0 <= i <= s.len()
{
    if i >= s.len() {
        i
    } else if !is_digit(s[i]) {
        i
    } else {
        digit_run(s, i + 1)
    }
}

proof fn lemma_digit_run_lb(s: Seq<char>, i: int)
    requires
        0 <= i <= s.len(),
    ensures
        digit_run(s, i) >= i,
    decreases s.len() - i,
{
    if i < s.len() && is_digit(s[i]) {
        lemma_digit_run_lb(s, i + 1);
    }
}

proof fn lemma_digit_run_skip(s: Seq<char>, i: int)
    requires
        0 <= i <= s.len(),
        forall|j: int| 0 <= j < i ==> is_digit(s[j]),
    ensures
        digit_run(s, 0) == digit_run(s, i),
    decreases i,
{
    if i > 0 {
        lemma_digit_run_skip(s, i - 1);
    }
}

/// The naming convention for a file entry: at least four leading decimal
/// digits, and the `.md` extension.
pub open spec fn matches_convention(name: Seq<char>) -> bool {
    &&& digit_run(name, 0) >= 4
    &&& name.len() >= 3
    &&& name[name.len() - 3] == '.'
    &&& name[name.len() - 2] == 'm'
    &&& name[name.len() - 1] == 'd'
}

/// Which file a directory entry names, and the stem the slug is derived
/// from: a subdirectory holds its document as `post.md`; a file must
/// match the naming convention or is skipped.
pub open spec fn entry_doc(name: Seq<char>, is_dir: bool) -> Option<(Seq<char>, Seq<char>)> {
    if is_dir {
        Some((name + "/post.md"@, "post"@))
    } else if matches_convention(name) {
        Some((name, name.subrange(0, name.len() - 3)))
    } else {
        None
    }
}

/// Resolve a directory entry to the document file to read (relative to
/// the store root) and the file stem the slug is derived from; entries
/// outside the naming convention are skipped, silently.
#[verifier::loop_isolation(false)]
pub fn document_for_entry(name: &str, is_dir: bool) -> (r: Option<(String, String)>)
    ensures
        match r {
            Some((p, stem)) => entry_doc(name@, is_dir) == Some((p@, stem@)),
            None => entry_doc(name@, is_dir) is None,
        },
{
    if is_dir {
        return Some((String::from_str(name).concat("/post.md"), String::from_str("post")));
    }
    let n = name.unicode_len();
    let mut i: usize = 0;
    while i < n && i < 4
        invariant
            0 <= i <= 4,
            i <= n,
            n == name@.len(),
            forall|j: int| 0 <= j < i ==> is_digit(#[trigger] name@[j]),
        decreases 4 - i,
    {
        let c = name.get_char(i);
        let u = c as u32;
        if !(48 <= u && u <= 57) {
            proof {
                lemma_digit_run_skip(name@, i as int);
                assert(digit_run(name@, i as int) == i);
            }
            return None;
        }
        i = i + 1;
    }
    if i < 4 {
        proof {
            lemma_digit_run_skip(name@, i as int);
            assert(digit_run(name@, i as int) == i);
        }
        return None;
    }
    proof {
        lemma_digit_run_skip(name@, 4);
        lemma_digit_run_lb(name@, 4);
    }
    if name.get_char(n - 3) != '.' || name.get_char(n - 2) != 'm' || name.get_char(n - 1) != 'd' {
        return None;
    }
    let stem = String::from_str(name.substring_char(0, n - 3));
    Some((String::from_str(name), stem))
}

/// Relies on str::from_utf8: accepts exactly the byte sequences that are
/// valid UTF-8, and decodes them.
#[verifier::external_body]
fn str_from_utf8(bytes: &[u8]) -> (r: Option<&str>)
    ensures
        match r {
            Some(s) => valid_utf8(bytes@) && s@ == decode_utf8(bytes@),
            None => !valid_utf8(bytes@),
        },
{
    core::str::from_utf8(bytes).ok()
}

/// What decoding a document's metadata block yields: the title, date and
/// tags it holds, and the offset at which the body begins; or nothing,
/// when the block is missing, is not valid text, or does not conform.
pub open spec fn decoded_front_matter(bytes: Seq<u8>) -> Option<(Seq<char>, Option<
    crate::date::Date,
>, Seq<Seq<char>>, int)> {
    match header_parts(bytes) {
        Some((o, c, e)) => {
            let header = bytes.subrange(o, c);
            if valid_utf8(header) {
                match front_matter_ok(decode_utf8(header)) {
                    Some((t, d, tags)) => Some((t, d, tags, e)),
                    None => None,
                }
            } else {
                None
            }
        },
        None => None,
    }
}

/// Extract and decode a document's metadata block, and derive its slug
/// from the file stem.  Returns the entry and the offset at which the
/// document body begins.  Every failure carries the document's path.
pub fn front_matter_from_bytes(bytes: &[u8], stem: &str, path: &str) -> (r: Result<
    (FrontMatter, usize),
    Error,
>)
    ensures
        match r {
            Ok((fm, body_start)) => {
                &&& decoded_front_matter(bytes@) matches Some((t, d, tags, e)) && fm.metadata.title@
                    == t && fm.metadata.date == d && fm.metadata.tags.deep_view() == tags
                    && body_start == e
                &&& body_start <= bytes@.len()
                &&& fm.slug@ == slug_of(stem@)
                &&& fm_wf(fm)
            },
            Err(err) => {
                &&& decoded_front_matter(bytes@) is None
                &&& err matches Error::Deserialize { error: _, path: p } && p@ == path@
            },
        },
{
    let parts = find_header(bytes);
    let (o, c, e) = match parts {
        Some(parts) => parts,
        None => {
            return Err(
                Error::Deserialize {
                    error: String::from_str("front matter is missing"),
                    path: String::from_str(path),
                },
            );
        },
    };
    let header_bytes = vstd::slice::slice_subrange(bytes, o, c);
    let header = match str_from_utf8(header_bytes) {
        Some(header) => header,
        None => {
            return Err(
                Error::Deserialize {
                    error: String::from_str("invalid utf-8"),
                    path: String::from_str(path),
                },
            );
        },
    };
    match front_matter_of(header, stem) {
        Ok(fm) => Ok((fm, e)),
        Err(msg) => Err(Error::Deserialize { error: msg, path: String::from_str(path) }),
    }
}

fn count_heading_ends(kinds: &Vec<MdKind>) -> (r: usize)
    ensures
        r == count_ends(kinds@),
{
    let mut cnt: usize = 0;
    let mut i: usize = 0;
    proof {
        assert(kinds@.take(0) =~= Seq::<MdKind>::empty());
    }
    while i < kinds.len()
        invariant
            0 <= i <= kinds@.len(),
            cnt == count_ends(kinds@.take(i as int)),
            cnt <= i,
        decreases kinds@.len() - i,
    {
        proof {
            assert(kinds@.take(i as int + 1).drop_last() =~= kinds@.take(i as int));
            assert(kinds@.take(i as int + 1).last() == kinds@[i as int]);
        }
        match &kinds[i] {
            MdKind::HeadingEnd(_) => {
                cnt = cnt + 1;
            },
            _ => {},
        }
        i = i + 1;
    }
    proof {
        assert(kinds@.take(kinds@.len() as int) =~= kinds@);
    }
    cnt
}

/// The bytes of the document body: everything past the closing boundary
/// line.
pub open spec fn body_bytes(bytes: Seq<u8>, e: int) -> Seq<u8> {
    bytes.subrange(e, bytes.len() as int)
}

/// What a successfully rendered document holds, given the document's
/// bytes and file stem: the metadata the block holds, the slug of the
/// stem, and the table of contents that numbering the body's headings
/// yields.  The HTML body is the outside serializer's work and is not
/// pinned here.
pub open spec fn post_matches(bytes: Seq<u8>, stem: Seq<char>, post: Post) -> bool {
    match decoded_front_matter(bytes) {
        Some((t, d, tags, e)) => {
            &&& valid_utf8(body_bytes(bytes, e))
            &&& post.front_matter.metadata.title@ == t
            &&& post.front_matter.metadata.date == d
            &&& post.front_matter.metadata.tags.deep_view() == tags
            &&& post.front_matter.slug@ == slug_of(stem)
            &&& heading_views(post.toc@) == toc_spec(md_kinds_of(decode_utf8(body_bytes(bytes, e))))
        },
        None => false,
    }
}

/// Rendering is deterministic in what it promises: two rendered
/// documents built from the same bytes and stem carry the same metadata
/// and the same table of contents.
pub proof fn lemma_render_deterministic(
    bytes: Seq<u8>,
    stem: Seq<char>,
    first: Post,
    second: Post,
)
    requires
        post_matches(bytes, stem, first),
        post_matches(bytes, stem, second),
    ensures
        heading_views(first.toc@) == heading_views(second.toc@),
        first.front_matter.metadata.title@ == second.front_matter.metadata.title@,
        first.front_matter.metadata.date == second.front_matter.metadata.date,
        first.front_matter.metadata.tags.deep_view() == second.front_matter.metadata.tags.deep_view(),
        first.front_matter.slug@ == second.front_matter.slug@,
{
}

/// Render a document from its bytes: decode the metadata block, number
/// the body's headings, splice a permalink anchor after each heading,
/// and serialize the body to HTML.
///
/// `Ok(None)` reports a body with more sections at one depth than a
/// section counter can hold; such a document is no valid input, and the
/// caller treats it as a fatal fault rather than a value.
pub fn render(bytes: &[u8], stem: &str, path: &str) -> (r: Result<
    Option<Post>,
    Error,
>)
    ensures
        match r {
            Ok(Some(post)) => post_matches(bytes@, stem@, post) && count_ends(
                md_kinds_of(
                    decode_utf8(body_bytes(bytes@, decoded_front_matter(bytes@)->Some_0.3)),
                ),
            ) <= u16::MAX,
            Ok(None) => decoded_front_matter(bytes@) matches Some((t, d, tags, e)) && valid_utf8(
                body_bytes(bytes@, e),
            ) && count_ends(md_kinds_of(decode_utf8(body_bytes(bytes@, e)))) > u16::MAX,
            Err(err) => {
                &&& (decoded_front_matter(bytes@) is None || !valid_utf8(
                    body_bytes(bytes@, decoded_front_matter(bytes@)->Some_0.3),
                ))
                &&& err matches Error::Deserialize { error: _, path: p } && p@ == path@
            },
        },
{
    let (front_matter, body_start) = match front_matter_from_bytes(bytes, stem, path) {
        Ok(pair) => pair,
        Err(err) => {
            return Err(err);
        },
    };
    let rest = vstd::slice::slice_subrange(bytes, body_start, bytes.len());
    let body = match str_from_utf8(rest) {
        Some(body) => body,
        None => {
            return Err(
                Error::Deserialize {
                    error: String::from_str("the document body is not valid text"),
                    path: String::from_str(path),
                },
            );
        },
    };
    let (events, kinds) = parse_markdown(body);
    let ends = count_heading_ends(&kinds);
    if ends > u16::MAX as usize {
        return Ok(None);
    }
    let toc = toc_from_kinds(&kinds);
    let mut ids: Vec<String> = Vec::new();
    let mut k: usize = 0;
    while k < toc.len()
        invariant
            0 <= k <= toc@.len(),
            ids@.len() == k,
        decreases toc@.len() - k,
    {
        ids.push(toc[k].html_id());
        k = k + 1;
    }
    proof {
        lemma_balanced_toc_len(kinds@);
    }
    let spliced = add_section_anchors(&events, &kinds, &ids);
    let body_len = body.len();
    let capacity = if body_len <= usize::MAX / 3 {
        body_len * 3 / 2
    } else {
        body_len
    };
    let html = events_to_html(spliced, capacity);
    Ok(Some(Post { front_matter, toc, html_body: html }))
}

} // verus!

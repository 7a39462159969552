//! Ordering the catalog.
//!
//! Listed entries come out with the dated ones first, newest first, and
//! the dateless ones (drafts) after them, ordered by slug descending.  In
//! production mode the dateless entries are excluded altogether.

use vstd::prelude::*;
use vstd::multiset::Multiset;
use vstd::seq_lib::group_to_multiset_ensures;
use crate::front_matter::FrontMatter;

verus! {

/// Lexicographic order on text, by character value.
pub open spec fn lex_le(a: Seq<char>, b: Seq<char>) -> bool
    decreases a.len(),
{
    if a.len() == 0 {
        true
    } else if b.len() == 0 {
        false
    } else if a.first() as u32 != b.first() as u32 {
        (a.first() as u32) < (b.first() as u32)
    } else {
        lex_le(a.drop_first(), b.drop_first())
    }
}

pub proof fn lemma_lex_le_total(a: Seq<char>, b: Seq<char>)
    ensures
        lex_le(a, b) || lex_le(b, a),
    decreases a.len(),
{
    if a.len() > 0 && b.len() > 0 && a.first() as u32 == b.first() as u32 {
        lemma_lex_le_total(a.drop_first(), b.drop_first());
    }
}

pub proof fn lemma_lex_le_trans(a: Seq<char>, b: Seq<char>, c: Seq<char>)
    requires
        lex_le(a, b),
        lex_le(b, c),
    ensures
        lex_le(a, c),
    decreases a.len(),
{
    if a.len() > 0 && b.len() > 0 && c.len() > 0 && a.first() as u32 == b.first() as u32
        && b.first() as u32 == c.first() as u32 {
        lemma_lex_le_trans(a.drop_first(), b.drop_first(), c.drop_first());
    }
}

/// A date that an entry may carry is a real calendar date.
pub open spec fn fm_wf(fm: FrontMatter) -> bool {
    fm.metadata.date matches Some(d) ==> d.wf()
}

/// Whether entry `a` stands at or before entry `b` in the catalog:
/// dated entries first, newest first; dateless entries after them, by
/// slug descending.
pub open spec fn entry_before(a: FrontMatter, b: FrontMatter) -> bool {
    match (a.metadata.date, b.metadata.date) {
        (Some(da), Some(db)) => da.key() >= db.key(),
        (Some(_), None) => true,
        (None, Some(_)) => false,
        (None, None) => lex_le(b.slug@, a.slug@),
    }
}

pub proof fn lemma_entry_before_total(a: FrontMatter, b: FrontMatter)
    ensures
        entry_before(a, b) || entry_before(b, a),
{
    if a.metadata.date is None && b.metadata.date is None {
        lemma_lex_le_total(a.slug@, b.slug@);
    }
}

pub proof fn lemma_entry_before_trans(a: FrontMatter, b: FrontMatter, c: FrontMatter)
    requires
        entry_before(a, b),
        entry_before(b, c),
    ensures
        entry_before(a, c),
{
    if a.metadata.date is None && b.metadata.date is None && c.metadata.date is None {
        lemma_lex_le_trans(c.slug@, b.slug@, a.slug@);
    }
}

/// A catalog in order: every entry stands at or before every later one.
pub open spec fn catalog_sorted(s: Seq<FrontMatter>) -> bool {
    forall|x: int, y: int| 0 <= x < y < s.len() ==> entry_before(#[trigger] s[x], #[trigger] s[y])
}

fn exec_lex_le(a: &str, b: &str) -> (r: bool)
    ensures
        r == lex_le(a@, b@),
{
    let an = a.unicode_len();
    let bn = b.unicode_len();
    let mut i: usize = 0;
    proof {
        assert(a@.skip(0) =~= a@);
        assert(b@.skip(0) =~= b@);
    }
    while i < an && i < bn
        invariant
            0 <= i <= an,
            0 <= i <= bn,
            an == a@.len(),
            bn == b@.len(),
            lex_le(a@, b@) == lex_le(a@.skip(i as int), b@.skip(i as int)),
            lex_le(b@, a@) == lex_le(b@.skip(i as int), a@.skip(i as int)),
        decreases an - i,
    {
        let ca = a.get_char(i) as u32;
        let cb = b.get_char(i) as u32;
        proof {
            assert(a@.skip(i as int).first() == a@[i as int]);
            assert(b@.skip(i as int).first() == b@[i as int]);
            assert(a@.skip(i as int).drop_first() =~= a@.skip(i as int + 1));
            assert(b@.skip(i as int).drop_first() =~= b@.skip(i as int + 1));
        }
        if ca != cb {
            return ca < cb;
        }
        i = i + 1;
    }
    proof {
        if i >= an {
            assert(a@.skip(i as int).len() == 0);
        } else {
            assert(b@.skip(i as int).len() == 0);
            assert(a@.skip(i as int).len() > 0);
        }
    }
    an <= bn
}

/// Whether entry `a` stands at or before entry `b`.
pub fn entry_le(a: &FrontMatter, b: &FrontMatter) -> (r: bool)
    requires
        fm_wf(*a),
        fm_wf(*b),
    ensures
        r == entry_before(*a, *b),
{
    match (&a.metadata.date, &b.metadata.date) {
        (Some(da), Some(db)) => !da.is_before(db),
        (Some(_), None) => true,
        (None, Some(_)) => false,
        (None, None) => exec_lex_le(b.slug.as_str(), a.slug.as_str()),
    }
}

/// Sort catalog entries: dated entries newest first, then dateless
/// entries by slug descending.  The result holds exactly the given
/// entries.
#[verifier::loop_isolation(false)]
pub fn sort_entries(entries: Vec<FrontMatter>) -> (r: Vec<FrontMatter>)
    requires
        forall|i: int| 0 <= i < entries@.len() ==> fm_wf(#[trigger] entries@[i]),
    ensures
        r@.to_multiset() == entries@.to_multiset(),
        catalog_sorted(r@),
        forall|i: int| 0 <= i < r@.len() ==> fm_wf(#[trigger] r@[i]),
{
    broadcast use group_to_multiset_ensures;

    let mut src = entries;
    let mut out: Vec<FrontMatter> = Vec::new();
    let ghost orig = entries@.to_multiset();
    proof {
        assert(out@.to_multiset() =~= Multiset::<FrontMatter>::empty());
        assert(out@.to_multiset().add(src@.to_multiset()) =~= orig);
    }
    while src.len() > 0
        invariant
            out@.to_multiset().add(src@.to_multiset()) == orig,
            catalog_sorted(out@),
            forall|i: int| 0 <= i < src@.len() ==> fm_wf(#[trigger] src@[i]),
            forall|i: int| 0 <= i < out@.len() ==> fm_wf(#[trigger] out@[i]),
            forall|x: int, y: int|
                0 <= x < out@.len() && 0 <= y < src@.len() ==> entry_before(
                    #[trigger] out@[x],
                    #[trigger] src@[y],
                ),
        decreases src@.len(),
    {
        // Find an entry that stands at or before every remaining one.
        let mut best: usize = 0;
        let mut j: usize = 1;
        proof {
            lemma_entry_before_total(src@[0], src@[0]);
        }
        while j < src.len()
            invariant
                0 <= best < j <= src@.len(),
                src@.len() > 0,
                forall|k: int| 0 <= k < j ==> entry_before(src@[best as int], #[trigger] src@[k]),
            decreases src@.len() - j,
        {
            let better = {
                let fwd = entry_le(&src[j], &src[best]);
                let bwd = entry_le(&src[best], &src[j]);
                fwd && !bwd
            };
            if better {
                proof {
                    assert forall|k: int| 0 <= k < j + 1 implies entry_before(
                        src@[j as int],
                        #[trigger] src@[k],
                    ) by {
                        if k < j {
                            lemma_entry_before_trans(src@[j as int], src@[best as int], src@[k]);
                        } else {
                            lemma_entry_before_total(src@[j as int], src@[j as int]);
                        }
                    }
                }
                best = j;
            } else {
                proof {
                    lemma_entry_before_total(src@[best as int], src@[j as int]);
                }
            }
            j = j + 1;
        }
        let picked = src.remove(best);
        out.push(picked);
        proof {
            assert(out@.to_multiset().add(src@.to_multiset()) =~= orig);
        }
    }
    proof {
        assert(src@.to_multiset() =~= Multiset::<FrontMatter>::empty());
        assert(out@.to_multiset() =~= orig);
    }
    out
}

} // verus!

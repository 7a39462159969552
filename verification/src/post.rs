//! A rendered document: its table of contents and section numbering.
//!
//! While the markdown events of a document body stream past, the store
//! numbers each heading.  Six counters, one per depth, and the previous
//! heading's depth make up the state: a deeper heading advances the
//! cursor without touching the skipped counters; a shallower or equal one
//! zeroes every counter strictly deeper than the new depth; then the
//! counter at the new depth is incremented, and the heading is appended
//! to the table of contents with a snapshot of the counters.

use vstd::prelude::*;
use crate::front_matter::FrontMatter;
use crate::num::{dec_digits, push_decimal};
use crate::slugs::{slug_of, slugify};

verus! {

/// A heading's nesting depth, one through six.
#[derive(Copy, Clone, Eq, PartialEq, Ord, PartialOrd, Hash, Debug, Structural)]
pub enum HeadingLevel {
    H1,
    H2,
    H3,
    H4,
    H5,
    H6,
}

/// The depth a level stands for, one through six.
pub open spec fn level_num(l: HeadingLevel) -> int {
    match l {
        HeadingLevel::H1 => 1,
        HeadingLevel::H2 => 2,
        HeadingLevel::H3 => 3,
        HeadingLevel::H4 => 4,
        HeadingLevel::H5 => 5,
        HeadingLevel::H6 => 6,
    }
}

/// Returned when a number is not a valid heading depth.
#[derive(Copy, Clone, Eq, PartialEq, Ord, PartialOrd, Hash, Debug, Structural)]
pub struct InvalidHeadingLevel(pub usize);

impl HeadingLevel {
    /// The level for a depth between one and six.
    pub fn try_from(value: usize) -> (r: Result<HeadingLevel, InvalidHeadingLevel>)
        ensures
            match r {
                Ok(l) => 1 <= value <= 6 && level_num(l) == value,
                Err(e) => !(1 <= value <= 6) && e == InvalidHeadingLevel(value),
            },
    {
        match value {
            1 => Ok(HeadingLevel::H1),
            2 => Ok(HeadingLevel::H2),
            3 => Ok(HeadingLevel::H3),
            4 => Ok(HeadingLevel::H4),
            5 => Ok(HeadingLevel::H5),
            6 => Ok(HeadingLevel::H6),
            _ => Err(InvalidHeadingLevel(value)),
        }
    }

    /// The level for a depth between one and six, given as a byte.
    pub fn from_u8(value: u8) -> (r: HeadingLevel)
        requires
            1 <= value <= 6,
        ensures
            level_num(r) == value,
    {
        match value {
            1 => HeadingLevel::H1,
            2 => HeadingLevel::H2,
            3 => HeadingLevel::H3,
            4 => HeadingLevel::H4,
            5 => HeadingLevel::H5,
            _ => HeadingLevel::H6,
        }
    }

    /// The depth as a number.
    pub fn as_number(&self) -> (r: u8)
        ensures
            r == level_num(*self),
    {
        match self {
            HeadingLevel::H1 => 1,
            HeadingLevel::H2 => 2,
            HeadingLevel::H3 => 3,
            HeadingLevel::H4 => 4,
            HeadingLevel::H5 => 5,
            HeadingLevel::H6 => 6,
        }
    }
}

/// One entry of a table of contents: the heading's text stripped of
/// formatting, its depth, and the section number at each depth.
#[derive(Debug, Clone, PartialEq, Eq)]
pub struct Heading {
    pub name: String,
    pub level: HeadingLevel,
    pub path: [u16; 6],
}

/// A heading as its abstract value.
pub ghost struct HeadingSpec {
    pub name: Seq<char>,
    pub level: int,
    pub path: Seq<u16>,
}

impl View for Heading {
    type V = HeadingSpec;

    open spec fn view(&self) -> HeadingSpec {
        HeadingSpec { name: self.name@, level: level_num(self.level), path: self.path@ }
    }
}

/// The abstract values of a table of contents.
pub open spec fn heading_views(s: Seq<Heading>) -> Seq<HeadingSpec> {
    s.map_values(|h: Heading| h@)
}

/// A full document: its catalog entry, its table of contents, and its
/// body as HTML.
#[derive(Debug, Clone)]
pub struct Post {
    pub front_matter: FrontMatter,
    pub toc: Vec<Heading>,
    pub html_body: String,
}

/// What the store reads from one markdown event: a heading opens or
/// closes at some depth, text or code runs past, inline formatting
/// toggles (dropped from heading names), or something else entirely
/// (also dropped from heading names).
#[derive(Debug, Clone, PartialEq, Eq)]
pub enum MdKind {
    HeadingStart(u8),
    HeadingEnd(u8),
    Text(String),
    Code(String),
    Formatting,
    Other,
}

/// Heading name pieces joined by single spaces.
pub open spec fn join_spaces(ps: Seq<Seq<char>>) -> Seq<char>
    decreases ps.len(),
{
    if ps.len() == 0 {
        Seq::empty()
    } else if ps.len() == 1 {
        ps[0]
    } else {
        join_spaces(ps.drop_last()) + seq![' '] + ps.last()
    }
}

/// The numbering state while events stream past: the counter at each
/// depth, the previous heading's depth, the name pieces of a heading
/// whose end has not passed yet, and the table of contents so far.
pub ghost struct TocSt {
    pub counters: Seq<u16>,
    pub prev: int,
    pub open: Option<Seq<Seq<char>>>,
    pub toc: Seq<HeadingSpec>,
}

pub open spec fn toc_init() -> TocSt {
    TocSt {
        counters: seq![0u16, 0u16, 0u16, 0u16, 0u16, 0u16],
        prev: 1,
        open: None,
        toc: Seq::empty(),
    }
}

/// Closing a heading of depth `lev`: zero every counter strictly deeper
/// than `lev`, increment the counter at `lev`, and append the heading.
pub open spec fn toc_close(st: TocSt, lev: int, ps: Seq<Seq<char>>) -> TocSt {
    let zeroed = Seq::new(
        6,
        |j: int|
            if lev <= j <= st.prev - 1 {
                0u16
            } else {
                st.counters[j]
            },
    );
    let bumped = zeroed.update(lev - 1, ((zeroed[lev - 1] + 1) as u16));
    TocSt {
        counters: bumped,
        prev: lev,
        open: None,
        toc: st.toc.push(HeadingSpec { name: join_spaces(ps), level: lev, path: bumped }),
    }
}

/// One event of numbering.  Events with an out-of-range depth, heading
/// ends with no open heading, and heading starts inside an open heading
/// do not occur in parsed markdown; they leave the state unchanged.
pub open spec fn toc_step(st: TocSt, k: MdKind) -> TocSt {
    match k {
        MdKind::HeadingStart(l) => if st.open is None && 1 <= l <= 6 {
            TocSt { open: Some(Seq::empty()), ..st }
        } else {
            st
        },
        MdKind::HeadingEnd(l) => if 1 <= l <= 6 {
            match st.open {
                Some(ps) => toc_close(st, l as int, ps),
                None => st,
            }
        } else {
            st
        },
        MdKind::Text(s) => match st.open {
            Some(ps) => TocSt { open: Some(ps.push(s@)), ..st },
            None => st,
        },
        MdKind::Code(s) => match st.open {
            Some(ps) => TocSt { open: Some(ps.push(s@)), ..st },
            None => st,
        },
        MdKind::Formatting => st,
        MdKind::Other => st,
    }
}

/// The numbering state after a whole event sequence.
pub open spec fn toc_fold(kinds: Seq<MdKind>) -> TocSt
    decreases kinds.len(),
{
    if kinds.len() == 0 {
        toc_init()
    } else {
        toc_step(toc_fold(kinds.drop_last()), kinds.last())
    }
}

/// The table of contents of an event sequence.
pub open spec fn toc_spec(kinds: Seq<MdKind>) -> Seq<HeadingSpec> {
    toc_fold(kinds).toc
}

/// How many heading ends an event sequence holds.
pub open spec fn count_ends(kinds: Seq<MdKind>) -> int
    decreases kinds.len(),
{
    if kinds.len() == 0 {
        0
    } else {
        count_ends(kinds.drop_last()) + (if kinds.last() matches MdKind::HeadingEnd(_) {
            1int
        } else {
            0int
        })
    }
}

/// The numbering state is always sane: six counters, each at most the
/// number of headings closed so far, a previous depth between one and
/// six, and as many entries as headings closed.
pub proof fn lemma_toc_fold_bounded(kinds: Seq<MdKind>)
    ensures
        toc_fold(kinds).counters.len() == 6,
        forall|j: int|
            0 <= j < 6 ==> #[trigger] toc_fold(kinds).counters[j] <= count_ends(kinds),
        1 <= toc_fold(kinds).prev <= 6,
        0 <= count_ends(kinds) <= kinds.len(),
    decreases kinds.len(),
{
    if kinds.len() > 0 {
        lemma_toc_fold_bounded(kinds.drop_last());
    }
}

/// Number the headings of a document's event sequence.
#[verifier::loop_isolation(false)]
pub fn toc_from_kinds(kinds: &Vec<MdKind>) -> (r: Vec<Heading>)
    requires
        count_ends(kinds@) <= u16::MAX,
    ensures
        heading_views(r@) == toc_spec(kinds@),
{
    let mut toc: Vec<Heading> = Vec::new();
    let mut counters: [u16; 6] = [0, 0, 0, 0, 0, 0];
    let mut prev: u8 = 1;
    let mut in_heading: bool = false;
    let mut name: String = String::new();
    let mut any_piece: bool = false;
    let ghost all = kinds@;
    proof {
        assert(all.take(0) =~= Seq::<MdKind>::empty());
        assert(counters@ =~= toc_init().counters);
        assert(heading_views(toc@) =~= Seq::<HeadingSpec>::empty());
    }
    let mut i: usize = 0;
    while i < kinds.len()
        invariant
            0 <= i <= all.len(),
            counters@ == toc_fold(all.take(i as int)).counters,
            prev as int == toc_fold(all.take(i as int)).prev,
            in_heading <==> toc_fold(all.take(i as int)).open is Some,
            in_heading ==> (toc_fold(all.take(i as int)).open matches Some(ps) && name@
                == join_spaces(ps) && any_piece == (ps.len() > 0)),
            !in_heading ==> name@ == Seq::<char>::empty() && !any_piece,
            heading_views(toc@) == toc_fold(all.take(i as int)).toc,
        decreases all.len() - i,
    {
        let ghost st = toc_fold(all.take(i as int));
        proof {
            assert(all.take(i as int + 1).drop_last() =~= all.take(i as int));
            assert(all.take(i as int + 1).last() == all[i as int]);
            lemma_toc_fold_bounded(all.take(i as int));
            lemma_toc_fold_bounded(all.take(i as int + 1));
            lemma_count_ends_take(all, i as int);
            lemma_count_ends_take(all, i as int + 1);
        }
        match &kinds[i] {
            MdKind::HeadingStart(l) => {
                let lv = *l;
                if !in_heading && 1 <= lv && lv <= 6 {
                    in_heading = true;
                    proof {
                        assert(join_spaces(Seq::<Seq<char>>::empty()) =~= Seq::<char>::empty());
                    }
                }
            },
            MdKind::HeadingEnd(l) => {
                let lv = *l;
                if in_heading && 1 <= lv && lv <= 6 {
                    let ghost ps = st.open->Some_0;
                    // Zero every counter strictly deeper than the new depth.
                    let mut j: usize = lv as usize;
                    while j < prev as usize
                        invariant
                            lv as int <= j <= 6,
                            prev as int >= lv as int ==> j <= prev as int,
                            (lv as int) > prev as int ==> j == lv as int,
                            counters@.len() == 6,
                            forall|m: int|
                                0 <= m < 6 ==> counters@[m] == if lv as int <= m < j {
                                    0u16
                                } else {
                                    st.counters[m]
                                },
                        decreases 6 - j,
                    {
                        counters[j] = 0;
                        j = j + 1;
                    }
                    let ghost zeroed = Seq::new(
                        6,
                        |m: int|
                            if lv as int <= m <= st.prev - 1 {
                                0u16
                            } else {
                                st.counters[m]
                            },
                    );
                    proof {
                        assert(counters@ =~= zeroed);
                    }
                    // The counter at the new depth has room: it never
                    // exceeds the number of headings closed so far.
                    let idx: usize = (lv - 1) as usize;
                    assert(counters[idx as int] < u16::MAX);
                    counters[idx] = counters[idx] + 1;
                    proof {
                        assert(counters@ =~= zeroed.update(
                            lv as int - 1,
                            ((zeroed[lv as int - 1] + 1) as u16),
                        ));
                    }
                    let entry = Heading {
                        name: name.clone(),
                        level: HeadingLevel::from_u8(lv),
                        path: counters,
                    };
                    toc.push(entry);
                    name = String::new();
                    any_piece = false;
                    in_heading = false;
                    prev = lv;
                    proof {
                        assert(heading_views(toc@) =~= toc_fold(all.take(i as int + 1)).toc);
                    }
                }
            },
            MdKind::Text(s) => {
                if in_heading {
                    if any_piece {
                        name.append(" ");
                    }
                    name.append(s.as_str());
                    any_piece = true;
                    proof {
                        let ghost ps = st.open->Some_0;
                        reveal_strlit(" ");
                        assert(" "@ =~= seq![' ']);
                        assert(ps.push(s@).drop_last() =~= ps);
                        if ps.len() == 0 {
                            assert(join_spaces(ps.push(s@)) =~= s@);
                            assert(name@ =~= s@);
                        }
                    }
                }
            },
            MdKind::Code(s) => {
                if in_heading {
                    if any_piece {
                        name.append(" ");
                    }
                    name.append(s.as_str());
                    any_piece = true;
                    proof {
                        let ghost ps = st.open->Some_0;
                        reveal_strlit(" ");
                        assert(" "@ =~= seq![' ']);
                        assert(ps.push(s@).drop_last() =~= ps);
                        if ps.len() == 0 {
                            assert(join_spaces(ps.push(s@)) =~= s@);
                            assert(name@ =~= s@);
                        }
                    }
                }
            },
            MdKind::Formatting => {},
            MdKind::Other => {},
        }
        i = i + 1;
    }
    proof {
        assert(all.take(all.len() as int) =~= all);
    }
    toc
}

/// How one table-of-contents entry follows from the one before it: the
/// counter at the new depth is one more than it was, every counter
/// strictly deeper than the new depth is zero, and every shallower
/// counter is untouched.
pub open spec fn numbering_step(prev_path: Seq<u16>, prev_level: int, h: HeadingSpec) -> bool {
    &&& 1 <= h.level <= 6
    &&& h.path.len() == 6
    &&& forall|j: int|
        0 <= j < 6 ==> #[trigger] h.path[j] == if j == h.level - 1 {
            ((prev_path[j] + 1) as u16)
        } else if h.level <= j <= prev_level - 1 {
            0u16
        } else {
            prev_path[j]
        }
}

/// The counters a document starts from: all six at zero, at depth one.
pub open spec fn initial_path() -> Seq<u16> {
    seq![0u16, 0u16, 0u16, 0u16, 0u16, 0u16]
}

/// The numbering state carries the last entry's snapshot: its counters
/// and previous depth are those of the last heading pushed (or the
/// initial ones while no heading has closed), and every entry follows
/// from the one before it by one numbering step.
pub open spec fn toc_monotonic_from(toc: Seq<HeadingSpec>, counters: Seq<u16>, prev: int) -> bool {
    &&& if toc.len() == 0 {
        counters == initial_path() && prev == 1
    } else {
        counters == toc.last().path && prev == toc.last().level
    }
    &&& forall|i: int|
        0 <= i < toc.len() ==> numbering_step(
            if i == 0 {
                initial_path()
            } else {
                toc[i - 1].path
            },
            if i == 0 {
                1
            } else {
                toc[i - 1].level
            },
            #[trigger] toc[i],
        )
}

/// The table of contents is monotonic: each entry increments the counter
/// at its own depth by one and zeroes exactly the counters strictly
/// deeper than it, starting from six zeroed counters at depth one.
pub proof fn lemma_toc_monotonic(kinds: Seq<MdKind>)
    ensures
        toc_monotonic_from(toc_spec(kinds), toc_fold(kinds).counters, toc_fold(kinds).prev),
    decreases kinds.len(),
{
    if kinds.len() == 0 {
        assert(toc_fold(kinds).counters =~= initial_path());
    } else {
        lemma_toc_monotonic(kinds.drop_last());
        let st = toc_fold(kinds.drop_last());
        let next = toc_fold(kinds);
        match kinds.last() {
            MdKind::HeadingEnd(l) => {
                if 1 <= l <= 6 && st.open is Some {
                    let lev = l as int;
                    let ps = st.open->Some_0;
                    let zeroed = Seq::new(
                        6,
                        |j: int|
                            if lev <= j <= st.prev - 1 {
                                0u16
                            } else {
                                st.counters[j]
                            },
                    );
                    let bumped = zeroed.update(lev - 1, ((zeroed[lev - 1] + 1) as u16));
                    let h = HeadingSpec { name: join_spaces(ps), level: lev, path: bumped };
                    assert(next.toc =~= st.toc.push(h));
                    assert(numbering_step(st.counters, st.prev, h));
                    assert forall|i: int| 0 <= i < next.toc.len() implies numbering_step(
                        if i == 0 {
                            initial_path()
                        } else {
                            next.toc[i - 1].path
                        },
                        if i == 0 {
                            1
                        } else {
                            next.toc[i - 1].level
                        },
                        #[trigger] next.toc[i],
                    ) by {
                        if i < st.toc.len() {
                            assert(next.toc[i] == st.toc[i]);
                            if i > 0 {
                                assert(next.toc[i - 1] == st.toc[i - 1]);
                            }
                        } else {
                            assert(next.toc[i] == h);
                            if i > 0 {
                                assert(next.toc[i - 1] == st.toc.last());
                            }
                        }
                    }
                }
            },
            _ => {},
        }
    }
}

/// The dotted section number of a heading: the counters at depths one
/// through `level`, separated by dots.
pub open spec fn dotted_number(path: Seq<u16>, level: int) -> Seq<char>
    decreases level,
{
    if level <= 1 {
        dec_digits(path[0] as int)
    } else {
        dotted_number(path, level - 1) + seq!['.'] + dec_digits(path[level - 1] as int)
    }
}

/// A heading's label: its dotted section number, a space, its name.
pub open spec fn section_label_spec(h: HeadingSpec) -> Seq<char> {
    dotted_number(h.path, h.level) + seq![' '] + h.name
}

impl Heading {
    /// The heading's label: its dotted section number, a space, its name.
    pub fn section_label(&self) -> (r: String)
        ensures
            r@ == section_label_spec(self@),
    {
        let lvl = self.level.as_number();
        let mut out = String::new();
        let c0 = self.path[0];
        push_decimal(&mut out, c0 as u32);
        proof {
            assert(Seq::<char>::empty() + dec_digits(c0 as int) =~= dec_digits(c0 as int));
        }
        let mut j: usize = 1;
        while j < lvl as usize
            invariant
                lvl as int == level_num(self.level),
                1 <= lvl <= 6,
                self.path@.len() == 6,
                1 <= j <= level_num(self.level),
                out@ == dotted_number(self.path@, j as int),
            decreases level_num(self.level) - j,
        {
            out.append(".");
            let cj = self.path[j];
            push_decimal(&mut out, cj as u32);
            proof {
                reveal_strlit(".");
                assert("."@ =~= seq!['.']);
                assert(out@ =~= dotted_number(self.path@, j as int + 1));
            }
            j = j + 1;
        }
        out.append(" ");
        out.append(self.name.as_str());
        proof {
            reveal_strlit(" ");
            assert(" "@ =~= seq![' ']);
            assert(out@ =~= section_label_spec(self@));
        }
        out
    }

    /// The anchor identifier of the heading: the slug of its label.
    pub fn html_id(&self) -> (r: String)
        ensures
            r@ == slug_of(section_label_spec(self@)),
    {
        let label = self.section_label();
        slugify(label.as_str())
    }
}

/// The inline HTML of a section's permalink anchor, for a given anchor
/// identifier.
pub open spec fn anchor_html_spec(id: Seq<char>) -> Seq<char> {
    "<a href=\"#"@ + id + "\" id=\""@ + id + "\"><span class=\"heading-anchor\">#</span></a>"@
}

/// Build a section's permalink anchor.
pub fn anchor_html(id: &str) -> (r: String)
    ensures
        r@ == anchor_html_spec(id@),
{
    let mut out = String::new();
    out.append("<a href=\"#");
    out.append(id);
    out.append("\" id=\"");
    out.append(id);
    out.append("\"><span class=\"heading-anchor\">#</span></a>");
    proof {
        assert(out@ =~= anchor_html_spec(id@));
    }
    out
}

/// A classification has depths one through six on its headings.
pub open spec fn kind_wf(k: MdKind) -> bool {
    match k {
        MdKind::HeadingStart(l) => 1 <= l <= 6,
        MdKind::HeadingEnd(l) => 1 <= l <= 6,
        _ => true,
    }
}

/// Heading events pair up: a heading start arrives only while no heading
/// is open, and a heading end only while one is.
pub open spec fn heading_events_balanced(kinds: Seq<MdKind>) -> bool {
    forall|i: int|
        0 <= i < kinds.len() ==> match #[trigger] kinds[i] {
            MdKind::HeadingStart(_) => toc_fold(kinds.take(i)).open is None,
            MdKind::HeadingEnd(_) => toc_fold(kinds.take(i)).open is Some,
            _ => true,
        }
}

/// Over balanced heading events, every heading end closes a heading, so
/// the table of contents holds exactly one entry per heading end.
pub proof fn lemma_balanced_toc_len(kinds: Seq<MdKind>)
    requires
        heading_events_balanced(kinds),
        forall|i: int| 0 <= i < kinds.len() ==> kind_wf(#[trigger] kinds[i]),
    ensures
        toc_spec(kinds).len() == count_ends(kinds),
    decreases kinds.len(),
{
    if kinds.len() > 0 {
        let p = kinds.drop_last();
        assert(heading_events_balanced(p)) by {
            assert forall|i: int|
                0 <= i < p.len() implies match #[trigger] p[i] {
                MdKind::HeadingStart(_) => toc_fold(p.take(i)).open is None,
                MdKind::HeadingEnd(_) => toc_fold(p.take(i)).open is Some,
                _ => true,
            } by {
                assert(p[i] == kinds[i]);
                assert(p.take(i) =~= kinds.take(i));
            }
        }
        assert(forall|i: int| 0 <= i < p.len() ==> kind_wf(#[trigger] p[i])) by {
            assert(forall|i: int| 0 <= i < p.len() ==> p[i] == kinds[i]);
        }
        lemma_balanced_toc_len(p);
        assert(kinds.take(kinds.len() - 1) =~= p);
        assert(kinds[kinds.len() - 1] == kinds.last());
        assert(kind_wf(kinds.last()));
        lemma_toc_fold_bounded(p);
        match kinds.last() {
            MdKind::HeadingEnd(l) => {
                assert(toc_fold(p).open is Some);
                assert(1 <= l <= 6);
            },
            _ => {},
        }
    }
}

/// `count_ends` of a prefix is at most `count_ends` of the whole.
pub proof fn lemma_count_ends_take(kinds: Seq<MdKind>, i: int)
    requires
        0 <= i <= kinds.len(),
    ensures
        count_ends(kinds.take(i)) <= count_ends(kinds),
        count_ends(kinds.take(i)) >= 0,
    decreases kinds.len() - i,
{
    lemma_toc_fold_bounded(kinds.take(i));
    if i < kinds.len() {
        lemma_count_ends_take(kinds, i + 1);
        assert(kinds.take(i + 1).drop_last() =~= kinds.take(i));
    } else {
        assert(kinds.take(i) =~= kinds);
    }
}

} // verus!

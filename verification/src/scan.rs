//! Locating the metadata block at the top of a document.
//!
//! A document starts with a metadata block delimited by two boundary
//! lines: a line of exactly three hyphens, optionally followed by
//! horizontal whitespace, ended by a line feed.  The scanner consumes the
//! document's bytes in chunks of any size and reports the byte span
//! strictly between the two boundary lines.  Its state after consuming
//! some bytes is a pure function of those bytes, so the span it reports
//! cannot depend on how the stream was cut into chunks.

use vstd::prelude::*;

verus! {

pub const NL: u8 = 10;

pub const HYPHEN: u8 = 45;

pub const SPACE: u8 = 32;

pub const TAB: u8 = 9;

/// How much of a boundary line the bytes of the current line could still
/// form: nothing yet, a run of one to three hyphens, three hyphens
/// followed by horizontal whitespace, or a line that can no longer be a
/// boundary.
#[derive(Clone, Copy, PartialEq, Eq, Structural, Debug)]
pub enum LinePos {
    LineStart,
    Hyphens(u8),
    Trail,
    Dead,
}

/// The scanner's abstract state after consuming a sequence of bytes.
pub ghost struct ScanSt {
    /// Bytes consumed before the scan completed.
    pub pos: int,
    /// Offset at which the current line began.
    pub line_start: int,
    /// Classification of the current line so far.
    pub line: LinePos,
    /// Offset just past the opening boundary's line feed, once seen.
    pub open_end: Option<int>,
    /// Offset of the closing boundary line's start, once seen.
    pub close_start: Option<int>,
}

pub open spec fn scan_init() -> ScanSt {
    ScanSt {
        pos: 0,
        line_start: 0,
        line: LinePos::LineStart,
        open_end: None,
        close_start: None,
    }
}

/// Whether a line whose bytes so far classify as `lp` becomes a boundary
/// line if the next byte is a line feed.
pub open spec fn boundary_ready(lp: LinePos) -> bool {
    lp == LinePos::Hyphens(3u8) || lp == LinePos::Trail
}

/// Classification of the current line after one more byte that is not a
/// line feed.
pub open spec fn line_step(lp: LinePos, b: u8) -> LinePos {
    match lp {
        LinePos::LineStart => if b == HYPHEN {
            LinePos::Hyphens(1u8)
        } else {
            LinePos::Dead
        },
        LinePos::Hyphens(k) => if b == HYPHEN && k < 3 {
            LinePos::Hyphens((k + 1) as u8)
        } else if (b == SPACE || b == TAB) && k == 3 {
            LinePos::Trail
        } else {
            LinePos::Dead
        },
        LinePos::Trail => if b == SPACE || b == TAB {
            LinePos::Trail
        } else {
            LinePos::Dead
        },
        LinePos::Dead => LinePos::Dead,
    }
}

/// One byte of scanning.  Once the closing boundary has been seen the
/// state no longer changes: later bytes belong to the document body.
pub open spec fn scan_step(st: ScanSt, b: u8) -> ScanSt {
    if st.close_start is Some {
        st
    } else if b == NL {
        if boundary_ready(st.line) {
            if st.open_end is None {
                ScanSt {
                    pos: st.pos + 1,
                    line_start: st.pos + 1,
                    line: LinePos::LineStart,
                    open_end: Some(st.pos + 1),
                    close_start: None,
                }
            } else {
                ScanSt { close_start: Some(st.line_start), ..st }
            }
        } else {
            ScanSt {
                pos: st.pos + 1,
                line_start: st.pos + 1,
                line: LinePos::LineStart,
                ..st
            }
        }
    } else {
        ScanSt { pos: st.pos + 1, line: line_step(st.line, b), ..st }
    }
}

/// The scanner's state after consuming `bytes`, starting from `st`.
pub open spec fn scan_from(st: ScanSt, bytes: Seq<u8>) -> ScanSt
    decreases bytes.len(),
{
    if bytes.len() == 0 {
        st
    } else {
        scan_step(scan_from(st, bytes.drop_last()), bytes.last())
    }
}

/// The scanner's state after consuming `bytes` from the start of a
/// document.
pub open spec fn scan(bytes: Seq<u8>) -> ScanSt {
    scan_from(scan_init(), bytes)
}

/// The metadata span that scanning `bytes` reports: the byte range
/// strictly between the opening boundary line and the closing boundary
/// line, or nothing while the closing boundary has not been seen.
pub open spec fn scan_span(bytes: Seq<u8>) -> Option<(int, int)> {
    match (scan(bytes).open_end, scan(bytes).close_start) {
        (Some(o), Some(c)) => Some((o, c)),
        _ => None,
    }
}

/// Internal sanity of a scan state: offsets are ordered and within the
/// consumed prefix, and a closing boundary implies an opening one.
pub open spec fn st_wf(st: ScanSt) -> bool {
    &&& 0 <= st.line_start <= st.pos
    &&& (st.open_end matches Some(o) ==> 0 <= o <= st.line_start)
    &&& (st.close_start matches Some(c) ==> st.open_end matches Some(o) && o <= c
        <= st.line_start)
}

pub proof fn lemma_scan_from_wf(st: ScanSt, bytes: Seq<u8>)
    requires
        st_wf(st),
    ensures
        st_wf(scan_from(st, bytes)),
        st.pos <= scan_from(st, bytes).pos <= st.pos + bytes.len(),
    decreases bytes.len(),
{
    if bytes.len() > 0 {
        lemma_scan_from_wf(st, bytes.drop_last());
    }
}

pub proof fn lemma_scan_wf(bytes: Seq<u8>)
    ensures
        st_wf(scan(bytes)),
        0 <= scan(bytes).pos <= bytes.len(),
{
    lemma_scan_from_wf(scan_init(), bytes);
}

/// Scanning a concatenation is scanning one piece after the other.
pub proof fn lemma_scan_from_append(st: ScanSt, a: Seq<u8>, b: Seq<u8>)
    ensures
        scan_from(st, a + b) == scan_from(scan_from(st, a), b),
    decreases b.len(),
{
    if b.len() == 0 {
        assert(a + b =~= a);
    } else {
        lemma_scan_from_append(st, a, b.drop_last());
        assert((a + b).drop_last() =~= a + b.drop_last());
        assert((a + b).last() == b.last());
    }
}

/// Once the closing boundary has been seen, further bytes change nothing.
pub proof fn lemma_scan_from_frozen(st: ScanSt, bytes: Seq<u8>)
    requires
        st.close_start is Some,
    ensures
        scan_from(st, bytes) == st,
    decreases bytes.len(),
{
    if bytes.len() > 0 {
        lemma_scan_from_frozen(st, bytes.drop_last());
    }
}

/// Feeding a scanner one chunk after another from `st`.
pub open spec fn scan_chunks(st: ScanSt, chunks: Seq<Seq<u8>>) -> ScanSt
    decreases chunks.len(),
{
    if chunks.len() == 0 {
        st
    } else {
        scan_chunks(scan_from(st, chunks.first()), chunks.drop_first())
    }
}

/// The scan's outcome does not depend on how the byte stream was cut
/// into chunks: feeding the chunks one by one ends in the same state as
/// scanning their concatenation in one piece.
pub proof fn lemma_scan_chunking(st: ScanSt, chunks: Seq<Seq<u8>>)
    ensures
        scan_chunks(st, chunks) == scan_from(st, chunks.flatten()),
    decreases chunks.len(),
{
    if chunks.len() == 0 {
        assert(chunks.flatten() =~= Seq::<u8>::empty());
    } else {
        lemma_scan_chunking(scan_from(st, chunks.first()), chunks.drop_first());
        lemma_scan_from_append(st, chunks.first(), chunks.drop_first().flatten());
    }
}

/// A boundary line: exactly three hyphens, then only horizontal
/// whitespace.  The terminating line feed is not part of the line.
pub open spec fn is_boundary_line(line: Seq<u8>) -> bool {
    &&& line.len() >= 3
    &&& line[0] == HYPHEN
    &&& line[1] == HYPHEN
    &&& line[2] == HYPHEN
    &&& forall|i: int| 3 <= i < line.len() ==> line[i] == SPACE || line[i] == TAB
}

/// Outcome of looking for a complete boundary line: where the first one
/// stands and where the line after it begins, or, when none is complete,
/// where the trailing unterminated line begins.
pub ghost enum LineScan {
    Found { line_start: int, after: int },
    NotFound { line_start: int },
}

/// Walk the bytes from position `i` (inside a line that began at `ls`)
/// and report the first complete boundary line.
pub open spec fn find_boundary(bytes: Seq<u8>, ls: int, i: int) -> LineScan
    decreases bytes.len() - i,
        when 0 <= i <= bytes.len()
{
    if i >= bytes.len() {
        LineScan::NotFound { line_start: ls }
    } else if bytes[i] == NL {
        if is_boundary_line(bytes.subrange(ls, i)) {
            LineScan::Found { line_start: ls, after: i + 1 }
        } else {
            find_boundary(bytes, i + 1, i + 1)
        }
    } else {
        find_boundary(bytes, ls, i + 1)
    }
}

/// Where the metadata block stands, said declaratively: the span strictly
/// between the first complete boundary line and the next complete
/// boundary line after it, and the offset just past the closing
/// boundary's line feed, where the document body begins.  Nothing when
/// the bytes hold fewer than two complete boundary lines.
pub open spec fn header_parts(bytes: Seq<u8>) -> Option<(int, int, int)> {
    match find_boundary(bytes, 0, 0) {
        LineScan::Found { line_start: _, after: o } => match find_boundary(bytes, o, o) {
            LineScan::Found { line_start: c, after: e } => Some((o, c, e)),
            LineScan::NotFound { .. } => None,
        },
        LineScan::NotFound { .. } => None,
    }
}

/// The metadata span alone: the bytes strictly between the two boundary
/// lines.
pub open spec fn header_bounds(bytes: Seq<u8>) -> Option<(int, int)> {
    match header_parts(bytes) {
        Some((o, c, _)) => Some((o, c)),
        None => None,
    }
}

pub proof fn lemma_find_boundary_bounds(bytes: Seq<u8>, ls: int, i: int)
    requires
        0 <= ls <= i <= bytes.len(),
    ensures
        match find_boundary(bytes, ls, i) {
            LineScan::Found { line_start, after } => ls <= line_start < after <= bytes.len(),
            LineScan::NotFound { line_start } => ls <= line_start <= bytes.len(),
        },
    decreases bytes.len() - i,
{
    if i < bytes.len() {
        if bytes[i] == NL {
            if !is_boundary_line(bytes.subrange(ls, i)) {
                lemma_find_boundary_bounds(bytes, i + 1, i + 1);
            }
        } else {
            lemma_find_boundary_bounds(bytes, ls, i + 1);
        }
    }
}

/// How one more byte changes the search for a boundary line: a found
/// boundary stays found; otherwise only a line feed can complete the
/// trailing line, as a boundary if its bytes form one.
pub proof fn lemma_find_boundary_push(bytes: Seq<u8>, b: u8, ls: int, i: int)
    requires
        0 <= ls <= i <= bytes.len(),
    ensures
        find_boundary(bytes.push(b), ls, i) == match find_boundary(bytes, ls, i) {
            LineScan::Found { line_start, after } => LineScan::Found { line_start, after },
            LineScan::NotFound { line_start } => {
                if b == NL {
                    if is_boundary_line(bytes.subrange(line_start, bytes.len() as int)) {
                        LineScan::Found { line_start, after: bytes.len() as int + 1 }
                    } else {
                        LineScan::NotFound { line_start: bytes.len() as int + 1 }
                    }
                } else {
                    LineScan::NotFound { line_start }
                }
            },
        },
    decreases bytes.len() - i,
{
    let ext = bytes.push(b);
    if i >= bytes.len() {
        assert(ext[i] == b);
        assert(ext.subrange(ls, i) =~= bytes.subrange(ls, i));
        if b == NL {
            assert(bytes.subrange(ls, bytes.len() as int) =~= bytes.subrange(ls, i));
        }
    } else {
        assert(ext[i] == bytes[i]);
        assert(ext.subrange(ls, i) =~= bytes.subrange(ls, i));
        if bytes[i] == NL {
            if !is_boundary_line(bytes.subrange(ls, i)) {
                lemma_find_boundary_push(bytes, b, i + 1, i + 1);
            }
        } else {
            lemma_find_boundary_push(bytes, b, ls, i + 1);
        }
    }
}

/// Classification of a partial line (no line feed inside) as the scanner
/// sees it: said directly over the bytes rather than step by step.
pub open spec fn line_class(seg: Seq<u8>) -> LinePos {
    if seg.len() == 0 {
        LinePos::LineStart
    } else if 1 <= seg.len() <= 3 && (forall|i: int| 0 <= i < seg.len() ==> seg[i] == HYPHEN) {
        LinePos::Hyphens(seg.len() as u8)
    } else if seg.len() > 3 && seg[0] == HYPHEN && seg[1] == HYPHEN && seg[2] == HYPHEN && (forall|
        i: int,
    |
        3 <= i < seg.len() ==> seg[i] == SPACE || seg[i] == TAB) {
        LinePos::Trail
    } else {
        LinePos::Dead
    }
}

/// A partial line completes into a boundary line exactly when its
/// classification says the scanner is ready for the line feed.
pub proof fn lemma_line_class_boundary(seg: Seq<u8>)
    ensures
        is_boundary_line(seg) <==> boundary_ready(line_class(seg)),
{
    if is_boundary_line(seg) {
        if seg.len() == 3 {
            assert(forall|i: int| 0 <= i < seg.len() ==> seg[i] == HYPHEN);
            assert(line_class(seg) == LinePos::Hyphens(3u8));
        } else {
            assert(seg[3] == SPACE || seg[3] == TAB);
            assert(!(forall|i: int| 0 <= i < seg.len() ==> seg[i] == HYPHEN)) by {
                assert(seg[3] != HYPHEN);
            }
            assert(line_class(seg) == LinePos::Trail);
        }
    }
}

/// One byte extends a partial line exactly as the scanner's step says.
pub proof fn lemma_line_class_step(seg: Seq<u8>, b: u8)
    requires
        b != NL,
    ensures
        line_class(seg.push(b)) == line_step(line_class(seg), b),
{
    let ext = seg.push(b);
    assert(ext.len() == seg.len() + 1);
    assert(ext.last() == b);
    assert(forall|i: int| 0 <= i < seg.len() ==> ext[i] == seg[i]);
    match line_class(seg) {
        LinePos::LineStart => {
            assert(seg.len() == 0);
            if b == HYPHEN {
                assert(forall|i: int| 0 <= i < ext.len() ==> ext[i] == HYPHEN);
                assert(line_class(ext) == LinePos::Hyphens(1u8));
            }
        },
        LinePos::Hyphens(k) => {
            assert(1 <= seg.len() <= 3 && k == seg.len());
            if b == HYPHEN && k < 3 {
                assert(forall|i: int| 0 <= i < ext.len() ==> ext[i] == HYPHEN);
                assert(line_class(ext) == LinePos::Hyphens((k + 1) as u8));
            } else if (b == SPACE || b == TAB) && k == 3 {
                assert(line_class(ext) == LinePos::Trail);
            } else {
                if b == HYPHEN {
                    assert(ext.len() == 4 && ext[3] == HYPHEN);
                    assert(line_class(ext) == LinePos::Dead);
                } else {
                    assert(ext.last() != HYPHEN);
                    if ext.len() > 3 {
                        assert(seg.len() == 3 && ext[3] == b);
                    }
                    assert(line_class(ext) == LinePos::Dead);
                }
            }
        },
        LinePos::Trail => {
            assert(seg.len() > 3 && seg[0] == HYPHEN && seg[1] == HYPHEN && seg[2] == HYPHEN);
            if b == SPACE || b == TAB {
                assert(line_class(ext) == LinePos::Trail);
            } else {
                assert(ext.last() != SPACE && ext.last() != TAB);
                assert(line_class(ext) == LinePos::Dead);
            }
        },
        LinePos::Dead => {
            if seg.len() == 0 {
            } else if 1 <= ext.len() <= 3 && (forall|i: int|
                0 <= i < ext.len() ==> ext[i] == HYPHEN) {
                assert(forall|i: int| 0 <= i < seg.len() ==> seg[i] == HYPHEN);
                assert(line_class(seg) != LinePos::Dead);
            } else if ext.len() > 3 && ext[0] == HYPHEN && ext[1] == HYPHEN && ext[2] == HYPHEN
                && (forall|i: int| 3 <= i < ext.len() ==> ext[i] == SPACE || ext[i] == TAB) {
                if seg.len() == 3 {
                    assert(forall|i: int| 0 <= i < seg.len() ==> seg[i] == HYPHEN);
                } else {
                    assert(seg.len() > 3);
                    assert(forall|i: int| 3 <= i < seg.len() ==> seg[i] == SPACE || seg[i] == TAB);
                }
                assert(line_class(seg) != LinePos::Dead);
            }
        },
    }
}

/// The scanner's state, characterized declaratively against the bytes it
/// has consumed.
pub open spec fn scan_matches(bytes: Seq<u8>) -> bool {
    let st = scan(bytes);
    match st.close_start {
        Some(c) => {
            &&& st.open_end matches Some(o) && header_parts(bytes) == Some((o, c, st.pos + 1))
        },
        None => {
            &&& st.pos == bytes.len()
            &&& st.line == line_class(bytes.subrange(st.line_start, bytes.len() as int))
            &&& match st.open_end {
                None => find_boundary(bytes, 0, 0) == (LineScan::NotFound {
                    line_start: st.line_start,
                }),
                Some(o) => {
                    &&& (find_boundary(bytes, 0, 0) matches LineScan::Found {
                        line_start: _,
                        after,
                    } && after == o)
                    &&& find_boundary(bytes, o, o) == (LineScan::NotFound {
                        line_start: st.line_start,
                    })
                },
            }
        },
    }
}

/// The scanner agrees with the declarative description on every prefix of
/// the document.
pub proof fn lemma_scan_exact(bytes: Seq<u8>)
    ensures
        scan_matches(bytes),
        scan_span(bytes) == header_bounds(bytes),
    decreases bytes.len(),
{
    lemma_scan_wf(bytes);
    if bytes.len() == 0 {
        assert(bytes =~= Seq::<u8>::empty());
        assert(scan(bytes) == scan_init());
    } else {
        let p = bytes.drop_last();
        let b = bytes.last();
        lemma_scan_exact(p);
        lemma_scan_wf(p);
        assert(bytes =~= p.push(b));
        assert(scan(bytes) == scan_step(scan(p), b));
        let st = scan(p);
        match st.close_start {
            Some(c) => {
                let o = st.open_end->Some_0;
                lemma_find_boundary_bounds(p, 0, 0);
                lemma_find_boundary_push(p, b, 0, 0);
                let fst = find_boundary(p, 0, 0);
                assert(fst matches LineScan::Found { .. });
                let fo = fst->Found_after;
                lemma_find_boundary_bounds(p, fo, fo);
                lemma_find_boundary_push(p, b, fo, fo);
            },
            None => {
                let seg = p.subrange(st.line_start, p.len() as int);
                let ext_seg = bytes.subrange(st.line_start, bytes.len() as int);
                assert(ext_seg =~= seg.push(b));
                lemma_line_class_boundary(seg);
                lemma_find_boundary_push(p, b, 0, 0);
                match st.open_end {
                    None => {
                        if b == NL {
                            if boundary_ready(st.line) {
                                let o = p.len() as int + 1;
                                assert(find_boundary(bytes, 0, 0) == (LineScan::Found {
                                    line_start: st.line_start,
                                    after: o,
                                }));
                                assert(find_boundary(bytes, o, o) == (LineScan::NotFound {
                                    line_start: o,
                                }));
                                assert(bytes.subrange(o, bytes.len() as int)
                                    =~= Seq::<u8>::empty());
                            } else {
                                assert(bytes.subrange(bytes.len() as int, bytes.len() as int)
                                    =~= Seq::<u8>::empty());
                            }
                        } else {
                            lemma_line_class_step(seg, b);
                        }
                    },
                    Some(o) => {
                        lemma_find_boundary_bounds(p, 0, 0);
                        lemma_find_boundary_push(p, b, o, o);
                        if b == NL {
                            if boundary_ready(st.line) {
                                assert(find_boundary(bytes, o, o) == (LineScan::Found {
                                    line_start: st.line_start,
                                    after: p.len() as int + 1,
                                }));
                            } else {
                                assert(bytes.subrange(bytes.len() as int, bytes.len() as int)
                                    =~= Seq::<u8>::empty());
                            }
                        } else {
                            lemma_line_class_step(seg, b);
                        }
                    },
                }
            },
        }
    }
}

/// An incremental scanner for the metadata block.  Feed it the document's
/// bytes in chunks of any size; after each chunk its state is exactly
/// `scan` of all bytes fed so far.
pub struct HeaderScanner {
    pos: usize,
    line_start: usize,
    line: LinePos,
    open_end: Option<usize>,
    close_start: Option<usize>,
    consumed: Ghost<Seq<u8>>,
}

impl View for HeaderScanner {
    type V = ScanSt;

    closed spec fn view(&self) -> ScanSt {
        ScanSt {
            pos: self.pos as int,
            line_start: self.line_start as int,
            line: self.line,
            open_end: match self.open_end {
                Some(o) => Some(o as int),
                None => None,
            },
            close_start: match self.close_start {
                Some(c) => Some(c as int),
                None => None,
            },
        }
    }
}

impl HeaderScanner {
    /// The bytes this scanner has consumed so far.
    pub closed spec fn consumed(&self) -> Seq<u8> {
        self.consumed@
    }

    /// The scanner's state is the scan of what it has consumed.
    pub open spec fn wf(&self) -> bool {
        &&& self@ == scan(self.consumed())
        &&& self.consumed().len() <= usize::MAX
    }

    pub fn new() -> (r: HeaderScanner)
        ensures
            r.wf(),
            r.consumed() == Seq::<u8>::empty(),
    {
        HeaderScanner {
            pos: 0,
            line_start: 0,
            line: LinePos::LineStart,
            open_end: None,
            close_start: None,
            consumed: Ghost(Seq::empty()),
        }
    }

    /// Consume one more chunk of the document.
    pub fn feed(&mut self, chunk: &[u8])
        requires
            old(self).wf(),
            old(self).consumed().len() + chunk@.len() <= usize::MAX,
        ensures
            final(self).wf(),
            final(self).consumed() == old(self).consumed() + chunk@,
    {
        let ghost base = self.consumed@;
        let mut i: usize = 0;
        proof {
            assert(base + chunk@.take(0) =~= base);
        }
        while i < chunk.len()
            invariant
                i <= chunk@.len(),
                base == old(self).consumed(),
                self@ == scan(base + chunk@.take(i as int)),
                self.consumed@ == base,
                base.len() + chunk@.len() <= usize::MAX,
            decreases chunk@.len() - i,
        {
            let ghost prefix = base + chunk@.take(i as int);
            proof {
                lemma_scan_wf(prefix);
                assert(prefix.len() == base.len() + i);
            }
            if self.close_start.is_some() {
                proof {
                    lemma_scan_from_frozen(scan(prefix), chunk@.skip(i as int));
                    lemma_scan_from_append(scan_init(), prefix, chunk@.skip(i as int));
                    assert(prefix + chunk@.skip(i as int) =~= base + chunk@);
                }
                self.consumed = Ghost(base + chunk@);
                return ;
            }
            let b = chunk[i];
            proof {
                assert((base + chunk@.take(i + 1)).drop_last() =~= prefix);
                assert((base + chunk@.take(i + 1)).last() == b);
            }
            if b == NL {
                let ready = match self.line {
                    LinePos::Hyphens(k) => k == 3,
                    LinePos::Trail => true,
                    _ => false,
                };
                if ready {
                    if self.open_end.is_none() {
                        self.open_end = Some(self.pos + 1);
                        self.pos = self.pos + 1;
                        self.line_start = self.pos;
                        self.line = LinePos::LineStart;
                    } else {
                        self.close_start = Some(self.line_start);
                    }
                } else {
                    self.pos = self.pos + 1;
                    self.line_start = self.pos;
                    self.line = LinePos::LineStart;
                }
            } else {
                let next = match self.line {
                    LinePos::LineStart => if b == HYPHEN {
                        LinePos::Hyphens(1)
                    } else {
                        LinePos::Dead
                    },
                    LinePos::Hyphens(k) => if b == HYPHEN && k < 3 {
                        LinePos::Hyphens(k + 1)
                    } else if (b == SPACE || b == TAB) && k == 3 {
                        LinePos::Trail
                    } else {
                        LinePos::Dead
                    },
                    LinePos::Trail => if b == SPACE || b == TAB {
                        LinePos::Trail
                    } else {
                        LinePos::Dead
                    },
                    LinePos::Dead => LinePos::Dead,
                };
                self.pos = self.pos + 1;
                self.line = next;
            }
            i = i + 1;
        }
        proof {
            assert(base + chunk@.take(chunk@.len() as int) =~= base + chunk@);
        }
        self.consumed = Ghost(base + chunk@);
    }

    /// Where the metadata block stands in the bytes consumed so far: the
    /// span strictly between the two boundary lines, and the offset at
    /// which the document body begins.  Nothing while fewer than two
    /// boundary lines have been consumed.
    pub fn parts(&self) -> (r: Option<(usize, usize, usize)>)
        requires
            self.wf(),
        ensures
            match r {
                Some((o, c, e)) => {
                    &&& header_parts(self.consumed()) == Some((o as int, c as int, e as int))
                    &&& o <= c <= e <= self.consumed().len()
                },
                None => header_parts(self.consumed()) is None,
            },
    {
        proof {
            lemma_scan_wf(self.consumed@);
            lemma_scan_exact(self.consumed@);
            if self@.close_start is Some {
                lemma_find_boundary_bounds(self.consumed@, 0, 0);
                let fst = find_boundary(self.consumed@, 0, 0);
                let o0 = fst->Found_after;
                lemma_find_boundary_bounds(self.consumed@, o0, o0);
            }
        }
        match (self.open_end, self.close_start) {
            (Some(o), Some(c)) => Some((o, c, self.pos + 1)),
            _ => None,
        }
    }
}

/// Scan a whole in-memory document for its metadata block.
pub fn find_header(bytes: &[u8]) -> (r: Option<(usize, usize, usize)>)
    ensures
        match r {
            Some((o, c, e)) => {
                &&& header_parts(bytes@) == Some((o as int, c as int, e as int))
                &&& o <= c <= e <= bytes@.len()
            },
            None => header_parts(bytes@) is None,
        },
{
    let n = bytes.len();
    assert(bytes@.len() <= usize::MAX);
    let mut scanner = HeaderScanner::new();
    scanner.feed(bytes);
    proof {
        assert(scanner.consumed() =~= bytes@);
    }
    scanner.parts()
}

} // verus!

//! The phantoms of one origin line, and of a folded line that merges several.
use vstd::prelude::*;
use vstd::utf8::encode_utf8;
use crate::error::LayoutError;
use crate::style::Offset;
use crate::assemble::{lemma_widths_nonneg, lemma_widths_prefix, widths_sum};
use crate::phantom::{
    col_at_of, col_at_spec, final_col_of, final_col_spec, final_len, hidden_inside, hide_end,
    lemma_final_bounded, lemma_first_not_before, lemma_shift_prefix_same, lemma_phantom_end, lemma_round_trip,
    phantom_at_final, phantom_at_final_spec, first_not_before, lemma_shift_prefix_push, lemma_shift_prefix_update_last,
    origin_col_of, origin_col_spec, phantoms_wf, shift_prefix, text_width, width, PhantomText,
    PhantomTextKind,
};

verus! {

/// The virtual insertions of one origin line.
#[derive(Debug)]
pub struct PhantomTextLine {
    pub line: usize,
    /// Length of the origin line in bytes, line ending included.
    pub origin_text_len: usize,
    /// Buffer offset of the line's first byte.
    pub offset_of_line: usize,
    pub texts: Vec<PhantomText>,
}

impl PhantomTextLine {
    /// Phantoms are ordered and anchored on this line; a fold placeholder,
    /// if any, is the last phantom and hides the rest of the line.
    pub open spec fn wf(&self) -> bool {
        &&& phantoms_wf(self.texts@, self.origin_text_len as int)
        &&& forall|j: int|
            0 <= j < self.texts@.len() ==> {
                &&& (#[trigger] self.texts@[j]).line == self.line
                &&& self.texts@[j].merge_col == self.texts@[j].col
                &&& self.texts@[j].is_fold() ==> j == self.texts@.len() - 1 && hide_end(self.texts@[j])
                    == self.origin_text_len
            }
        &&& self.offset_of_line + self.origin_text_len <= usize::MAX
    }

    /// The line that a fold placeholder swallows into this one.
    pub open spec fn folded_line_spec(&self) -> Option<usize> {
        if self.texts@.len() > 0 {
            match self.texts@.last().kind {
                PhantomTextKind::LineFoldedRang { next_line, .. } => Some(next_line),
                _ => None,
            }
        } else {
            None
        }
    }

    /// The end line and end column of the fold placeholder, if the line has
    /// one.
    pub open spec fn line_fold(&self) -> Option<(usize, usize)> {
        if self.texts@.len() > 0 {
            match self.texts@.last().kind {
                PhantomTextKind::LineFoldedRang { next_line, end_col, .. } => Some((next_line, end_col)),
                _ => None,
            }
        } else {
            None
        }
    }

    pub open spec fn final_text_len_spec(&self) -> int {
        final_len(self.texts@, self.origin_text_len as int)
    }

    pub fn folded_line(&self) -> (r: Option<usize>)
        ensures
            r == self.folded_line_spec(),
    {
        if self.texts.len() > 0 {
            match self.texts[self.texts.len() - 1].kind {
                PhantomTextKind::LineFoldedRang { next_line, .. } => Some(next_line),
                _ => None,
            }
        } else {
            None
        }
    }

    /// The same phantoms after an edit before the line moved it by `offset`
    /// bytes and `line_offset` lines.
    pub fn adjust(&self, offset: Offset, line_offset: Offset) -> (r: PhantomTextLine)
        requires
            self.wf(),
            line_offset.fits(self.line),
            offset.fits(self.offset_of_line),
            offset.fits((self.offset_of_line + self.origin_text_len) as usize),
            forall|j: int| 0 <= j < self.texts@.len() ==> (#[trigger] self.texts@[j]).can_adjust_lines(line_offset),
        ensures
            r.wf(),
            r.line == line_offset.apply(self.line),
            r.offset_of_line == offset.apply(self.offset_of_line),
            r.origin_text_len == self.origin_text_len,
            r.texts@ == self.texts@.map_values(|p: PhantomText| p.lines_adjusted(line_offset)),
            r.folded_line_spec() == match self.folded_line_spec() {
                Some(l) => Some(line_offset.apply(l)),
                None => None,
            },
    {
        let mut texts: Vec<PhantomText> = Vec::new();
        let mut j: usize = 0;
        while j < self.texts.len()
            invariant
                j <= self.texts.len(),
                forall|k: int| 0 <= k < self.texts@.len() ==> (#[trigger] self.texts@[k]).can_adjust_lines(line_offset),
                texts@ == self.texts@.subrange(0, j as int).map_values(|p: PhantomText| p.lines_adjusted(line_offset)),
            decreases self.texts.len() - j,
        {
            let mut p = self.texts[j].duplicate();
            proof {
                assert(self.texts@[j as int].can_adjust_lines(line_offset));
            }
            p.adjust_lines(line_offset);
            texts.push(p);
            proof {
                assert(self.texts@.subrange(0, j + 1).map_values(|p: PhantomText| p.lines_adjusted(line_offset))
                    =~= self.texts@.subrange(0, j as int).map_values(|p: PhantomText| p.lines_adjusted(line_offset)).push(p));
            }
            j = j + 1;
        }
        proof {
            assert(self.texts@.subrange(0, self.texts@.len() as int) =~= self.texts@);
            assert forall|k: int| 0 <= k <= texts@.len() implies shift_prefix(texts@, k) == shift_prefix(self.texts@, k) by {
                lemma_shift_prefix_same(texts@, self.texts@, k);
            }
        }
        let r = PhantomTextLine {
            line: line_offset.adjusted(self.line),
            origin_text_len: self.origin_text_len,
            offset_of_line: offset.adjusted(self.offset_of_line),
            texts,
        };
        proof {
            assert forall|i: int, k: int| 0 <= i < k < r.texts@.len() implies hide_end(#[trigger] r.texts@[i]) <= #[trigger] r.texts@[k].merge_col by {
                assert(hide_end(self.texts@[i]) <= self.texts@[k].merge_col);
            }
            assert forall|k: int| 0 <= k < r.texts@.len() implies {
                &&& (#[trigger] r.texts@[k]).line == r.line
                &&& r.texts@[k].merge_col == r.texts@[k].col
                &&& r.texts@[k].is_fold() ==> k == r.texts@.len() - 1 && hide_end(r.texts@[k]) == r.origin_text_len
            } by {
                assert(self.texts@[k].line == self.line);
            }
            if r.texts@.len() > 0 {
                assert(r.texts@.last() == r.texts@[r.texts@.len() - 1]);
            }
        }
        r
    }

    /// The final column of origin column `col`, or `None` when it lies
    /// strictly inside a hidden span.
    pub fn col_at(&self, col: usize) -> (r: Option<usize>)
        requires
            self.wf(),
            col <= self.origin_text_len,
        ensures
            r == (if hidden_inside(self.texts@, col as int) {
                None
            } else {
                Some(col_at_spec(self.texts@, col as int) as usize)
            }),
    {
        col_at_of(&self.texts, self.origin_text_len, col)
    }

    /// The final column of origin column `col`; inside a hidden span, the
    /// start of the placeholder.
    pub fn final_col_of_col(&self, col: usize) -> (r: usize)
        requires
            self.wf(),
            col <= self.origin_text_len,
        ensures
            r == final_col_spec(self.texts@, col as int),
    {
        final_col_of(&self.texts, self.origin_text_len, col)
    }

    /// The origin line, origin column and buffer offset of final column `f`.
    pub fn cursor_position_of_final_col(&self, f: usize) -> (r: (usize, usize, usize))
        requires
            self.wf(),
            f <= self.final_text_len_spec(),
        ensures
            r.0 == self.line,
            r.1 == origin_col_spec(self.texts@, f as int),
            r.2 == self.offset_of_line + r.1,
    {
        let col = origin_col_of(&self.texts, self.origin_text_len, f);
        (self.line, col, self.offset_of_line + col)
    }
}

/// An origin line as a part of a folded line.
#[derive(Clone, Copy, Debug, PartialEq, Eq, Structural, Hash)]
pub struct LineSegment {
    pub line: usize,
    /// Buffer offset of the line's first byte.
    pub offset_of_line: usize,
    /// Where the line starts in the merged origin text.
    pub merge_col: usize,
    /// Length of the line in bytes, line ending included.
    pub len: usize,
}

/// The phantoms of a folded line: the origin lines of a fold chain, their
/// texts laid end to end, with every phantom in merged columns. A fold
/// placeholder hides the rest of its line and the start of the next line
/// of the chain up to the fold's end column.
#[derive(Debug)]
pub struct PhantomTextMultiLine {
    pub origin_text_len: usize,
    pub final_text_len: usize,
    pub segments: Vec<LineSegment>,
    pub texts: Vec<PhantomText>,
}

pub open spec fn segments_wf(segs: Seq<LineSegment>, origin_len: int) -> bool {
    &&& segs.len() > 0
    &&& segs[0].merge_col == 0
    &&& forall|s: int|
        0 <= s < segs.len() - 1 ==> #[trigger] segs[s + 1].merge_col == #[trigger] segs[s].merge_col
            + segs[s].len
    &&& forall|s: int, t: int| 0 <= s < t < segs.len() ==> (#[trigger] segs[s]).line < (#[trigger] segs[t]).line
    &&& forall|s: int|
        0 <= s < segs.len() ==> (#[trigger] segs[s]).offset_of_line + segs[s].len <= usize::MAX
    &&& origin_len == segs.last().merge_col + segs.last().len
}

/// The segment that merged column `m` falls in, scanning from `s`: the
/// first whose successor starts after `m`, or the last.
pub open spec fn segment_from(segs: Seq<LineSegment>, m: int, s: int) -> int
    decreases segs.len() - s,
{
    if s < 0 || s >= segs.len() - 1 || m < segs[s + 1].merge_col {
        s
    } else {
        segment_from(segs, m, s + 1)
    }
}

pub open spec fn segment_of(segs: Seq<LineSegment>, m: int) -> int {
    segment_from(segs, m, 0)
}

/// The last segment whose line is at most `line`, scanning from `s`.
pub open spec fn segment_of_line_from(segs: Seq<LineSegment>, line: int, s: int) -> int
    decreases segs.len() - s,
{
    if s < 0 || s >= segs.len() - 1 || line < segs[s + 1].line {
        s
    } else {
        segment_of_line_from(segs, line, s + 1)
    }
}

/// The merged column of origin (`line`, `col`). A line that the fold chain
/// skips, or a column past its line, goes to the end of the chain line
/// before it, which a placeholder hides.
pub open spec fn merge_col_of_spec(segs: Seq<LineSegment>, line: int, col: int) -> int {
    let s = segment_of_line_from(segs, line, 0);
    if segs[s].line == line && col <= segs[s].len {
        segs[s].merge_col + col
    } else {
        segs[s].merge_col + segs[s].len
    }
}

/// Segments after `s` start after it ends.
pub proof fn lemma_segments_ordered(segs: Seq<LineSegment>, origin_len: int, s: int, t: int)
    requires
        segments_wf(segs, origin_len),
        0 <= s < t < segs.len(),
    ensures
        segs[s].merge_col + segs[s].len <= segs[t].merge_col,
    decreases t - s,
{
    let u = t - 1;
    assert(segs[u + 1].merge_col == segs[u].merge_col + segs[u].len);
    if s < u {
        lemma_segments_ordered(segs, origin_len, s, u);
    }
}

pub proof fn lemma_segment_from(segs: Seq<LineSegment>, origin_len: int, m: int, s: int)
    requires
        segments_wf(segs, origin_len),
        0 <= s < segs.len(),
        segs[s].merge_col <= m <= origin_len,
    ensures
        s <= segment_from(segs, m, s) < segs.len(),
        segs[segment_from(segs, m, s)].merge_col <= m,
        m <= segs[segment_from(segs, m, s)].merge_col + segs[segment_from(segs, m, s)].len,
        segment_from(segs, m, s) < segs.len() - 1 ==> m < segs[segment_from(segs, m, s)].merge_col
            + segs[segment_from(segs, m, s)].len,
    decreases segs.len() - s,
{
    if s < segs.len() - 1 {
        assert(segs[s + 1].merge_col == segs[s].merge_col + segs[s].len);
        if m >= segs[s + 1].merge_col {
            lemma_segment_from(segs, origin_len, m, s + 1);
        }
    }
}

/// A column within segment `t` is found in segment `t`.
pub proof fn lemma_segment_of_col(segs: Seq<LineSegment>, origin_len: int, t: int, col: int)
    requires
        segments_wf(segs, origin_len),
        0 <= t < segs.len(),
        0 <= col <= segs[t].len,
        col == segs[t].len ==> t == segs.len() - 1,
    ensures
        segment_of(segs, segs[t].merge_col + col) == t,
{
    let m = segs[t].merge_col + col;
    assert forall|s: int| 0 <= s < t implies m >= #[trigger] segs[s + 1].merge_col by {
        if s + 1 < t {
            lemma_segments_ordered(segs, origin_len, s + 1, t);
        }
    }
    lemma_segment_from_is(segs, m, 0, t);
}

proof fn lemma_segment_from_is(segs: Seq<LineSegment>, m: int, s: int, t: int)
    requires
        0 <= s <= t < segs.len(),
        forall|i: int| s <= i < t ==> m >= #[trigger] segs[i + 1].merge_col,
        t < segs.len() - 1 ==> m < segs[t + 1].merge_col,
    ensures
        segment_from(segs, m, s) == t,
    decreases t - s,
{
    if s < t {
        lemma_segment_from_is(segs, m, s + 1, t);
    }
}

pub proof fn lemma_segment_of_line_from(segs: Seq<LineSegment>, line: int, s: int)
    requires
        0 <= s < segs.len(),
    ensures
        s <= segment_of_line_from(segs, line, s) < segs.len(),
        segment_of_line_from(segs, line, s) < segs.len() - 1 ==> line < segs[segment_of_line_from(
            segs,
            line,
            s,
        ) + 1].line,
        forall|i: int| s < i <= segment_of_line_from(segs, line, s) ==> #[trigger] segs[i].line <= line,
    decreases segs.len() - s,
{
    if s < segs.len() - 1 && line >= segs[s + 1].line {
        lemma_segment_of_line_from(segs, line, s + 1);
    }
}

/// The segment of a chain line is found by its line.
pub proof fn lemma_segment_of_line(segs: Seq<LineSegment>, origin_len: int, t: int)
    requires
        segments_wf(segs, origin_len),
        0 <= t < segs.len(),
    ensures
        segment_of_line_from(segs, segs[t].line as int, 0) == t,
{
    lemma_segment_of_line_from_is(segs, segs[t].line as int, 0, t);
}

proof fn lemma_segment_of_line_from_is(segs: Seq<LineSegment>, line: int, s: int, t: int)
    requires
        segments_wf(segs, 0int + segs.last().merge_col + segs.last().len),
        0 <= s <= t < segs.len(),
        segs[t].line == line,
    ensures
        segment_of_line_from(segs, line, s) == t,
    decreases t - s,
{
    if s < t {
        assert(segs[s + 1].line <= segs[t].line);
        lemma_segment_of_line_from_is(segs, line, s + 1, t);
    } else if t < segs.len() - 1 {
        assert(segs[t].line < segs[t + 1].line);
    }
}

impl PhantomTextMultiLine {
    pub open spec fn wf(&self) -> bool {
        &&& segments_wf(self.segments@, self.origin_text_len as int)
        &&& phantoms_wf(self.texts@, self.origin_text_len as int)
        &&& self.final_text_len == final_len(self.texts@, self.origin_text_len as int)
    }

    /// The chain ends with a fold placeholder that still waits for its end
    /// line: it is the last phantom and hides the rest of the last line.
    pub open spec fn pending_fold(&self) -> Option<(usize, usize)> {
        if self.texts@.len() > 0 && hide_end(self.texts@.last()) == self.origin_text_len {
            match self.texts@.last().kind {
                PhantomTextKind::LineFoldedRang { next_line, end_col, .. } => Some((next_line, end_col)),
                _ => None,
            }
        } else {
            None
        }
    }

    pub open spec fn first_line(&self) -> usize {
        self.segments@[0].line
    }

    pub open spec fn last_line(&self) -> usize {
        self.segments@.last().line
    }

    /// A folded line of one origin line.
    pub fn new(origin: &PhantomTextLine) -> (r: PhantomTextMultiLine)
        requires
            origin.wf(),
        ensures
            r.wf(),
            r.segments@ == seq![LineSegment { line: origin.line, offset_of_line: origin.offset_of_line, merge_col: 0, len: origin.origin_text_len }],
            r.texts@ == origin.texts@,
            r.origin_text_len == origin.origin_text_len,
            r.pending_fold() is Some <==> origin.folded_line_spec() is Some,
            r.pending_fold() matches Some((l, _)) ==> origin.folded_line_spec() == Some(l),
            r.pending_fold() == origin.line_fold(),
    {
        let mut texts: Vec<PhantomText> = Vec::new();
        let mut j: usize = 0;
        while j < origin.texts.len()
            invariant
                j <= origin.texts.len(),
                texts@ == origin.texts@.subrange(0, j as int),
            decreases origin.texts.len() - j,
        {
            texts.push(origin.texts[j].duplicate());
            j = j + 1;
        }
        proof {
            assert(texts@ =~= origin.texts@);
        }
        let mut segments: Vec<LineSegment> = Vec::new();
        segments.push(
            LineSegment {
                line: origin.line,
                offset_of_line: origin.offset_of_line,
                merge_col: 0,
                len: origin.origin_text_len,
            },
        );
        let final_text_len = origin_final_len(&texts, origin.origin_text_len);
        let r = PhantomTextMultiLine {
            origin_text_len: origin.origin_text_len,
            final_text_len,
            segments,
            texts,
        };
        proof {
            assert(r.segments@ =~= seq![LineSegment { line: origin.line, offset_of_line: origin.offset_of_line, merge_col: 0, len: origin.origin_text_len }]);
            if r.texts@.len() > 0 {
                let n = r.texts@.len() - 1;
                assert(origin.texts@[n] == r.texts@.last());
            }
        }
        r
    }

    /// The end column of the pending fold placeholder when it swallows
    /// `next`, and the merged text still fits.
    fn pending_end_col(&self, next: &PhantomTextLine) -> (r: Result<usize, LayoutError>)
        requires
            self.wf(),
            next.wf(),
        ensures
            r matches Ok(e) ==> {
                &&& self.pending_fold() == Some((next.line, e))
                &&& e <= next.origin_text_len
                &&& next.line > self.last_line()
                &&& self.origin_text_len + next.origin_text_len <= usize::MAX
                &&& self.texts@.len() > 0
                &&& hide_end(self.texts@.last()) == self.origin_text_len
            },
            (self.pending_fold() matches Some((l, e)) && l == next.line && e <= next.origin_text_len
                && next.line > self.last_line() && self.origin_text_len + next.origin_text_len <= usize::MAX)
                ==> r is Ok,
    {
        let n = self.texts.len();
        if n == 0 {
            return Err(LayoutError::NotFound);
        }
        let end_col = match self.texts[n - 1].kind {
            PhantomTextKind::LineFoldedRang { next_line, end_col, .. } => {
                if next_line != next.line {
                    return Err(LayoutError::NotFound);
                }
                end_col
            },
            _ => {
                return Err(LayoutError::NotFound);
            },
        };
        let last_seg = self.segments[self.segments.len() - 1];
        if next.line <= last_seg.line || end_col > next.origin_text_len
            || self.texts[n - 1].merge_col as u128 + self.texts[n - 1].hide_len as u128
            != self.origin_text_len as u128 {
            return Err(LayoutError::InvalidInterval);
        }
        if self.origin_text_len as u128 + next.origin_text_len as u128 > usize::MAX as u128 {
            return Err(LayoutError::InvalidInterval);
        }
        proof {
            assert(self.texts@.last() == self.texts@[n - 1]);
            assert(self.segments@.last() == last_seg);
        }
        Ok(end_col)
    }

    /// Swallows the end line of the pending fold placeholder: its text is
    /// laid after the merged text, the placeholder also hides the line's
    /// first `end_col` bytes, and the line's phantoms that start inside that
    /// span are dropped.
    #[verifier::rlimit(100)]
    pub fn merge(&mut self, next: &PhantomTextLine) -> (r: Result<(), LayoutError>)
        requires
            old(self).wf(),
            next.wf(),
        ensures
            r is Ok ==> final(self).wf(),
            r is Ok ==> final(self).segments@ == old(self).segments@.push(
                LineSegment {
                    line: next.line,
                    offset_of_line: next.offset_of_line,
                    merge_col: old(self).origin_text_len,
                    len: next.origin_text_len,
                },
            ),
            r is Err ==> *final(self) == *old(self),
            (old(self).pending_fold() matches Some((l, e)) && l == next.line && e <= next.origin_text_len
                && next.line > old(self).last_line() && old(self).origin_text_len + next.origin_text_len <= usize::MAX
                && old(self).final_text_len + next.origin_text_len + widths_sum(next.texts@) <= usize::MAX) ==> r is Ok,
            r is Ok ==> {
                let n = old(self).texts@.len() as int;
                let e = old(self).pending_fold().unwrap().1;
                &&& n > 0
                &&& final(self).texts@.len() >= n
                &&& forall|j: int| 0 <= j < n - 1 ==> #[trigger] final(self).texts@[j] == old(self).texts@[j]
                &&& final(self).texts@[n - 1] == (PhantomText {
                    hide_len: (old(self).texts@[n - 1].hide_len + e) as usize,
                    ..old(self).texts@[n - 1]
                })
                &&& tail_members(
                    final(self).texts@,
                    next.texts@,
                    next.texts@.len() as int,
                    e as int,
                    old(self).origin_text_len,
                    n,
                )
                &&& final(self).origin_text_len == old(self).origin_text_len + next.origin_text_len
                &&& final(self).final_text_len <= old(self).final_text_len + next.origin_text_len + widths_sum(next.texts@)
                &&& (next.line_fold() is Some && next.texts@.last().col >= e) ==> final(self).pending_fold()
                    == next.line_fold()
            },
            (old(self).pending_fold() matches Some((l, e)) && l == next.line && e <= next.origin_text_len
                && next.line > old(self).last_line()) <== r is Ok,
    {
        let n = self.texts.len();
        let end_col = self.pending_end_col(next)?;
        let base = self.origin_text_len;
        let new_len = base + next.origin_text_len;
        let ghost old_texts = self.texts@;
        proof {
            lemma_final_bounded(old_texts, base as int, n - 1);
        }
        let mut texts: Vec<PhantomText> = Vec::new();
        let mut i: usize = 0;
        while i < n - 1
            invariant
                n == self.texts.len(),
                i <= n - 1,
                texts@ == self.texts@.subrange(0, i as int),
            decreases n - 1 - i,
        {
            texts.push(self.texts[i].duplicate());
            i = i + 1;
        }
        let mut last = self.texts[n - 1].duplicate();
        last.hide_len = last.hide_len + end_col;
        let ghost last_g = last;
        texts.push(last);
        proof {
            assert(texts@ =~= old_texts.update(n - 1, last_g));
            assert forall|k: int| 0 <= k < n implies shift_prefix(texts@, k) == shift_prefix(old_texts, k) by {
                lemma_shift_prefix_update_last(old_texts, last_g, k);
            }
        }
        let ghost prefix = texts@;
        let merged_frontier = base + end_col;
        let final_frontier = self.texts[n - 1].final_col + text_width(&self.texts[n - 1]);
        proof {
            lemma_phantom_end(old_texts, base as int, n - 1);
            assert(final_frontier == self.final_text_len);
        }
        let (merged_frontier, final_frontier) = lay_tail(&mut texts, next, base, end_col, new_len, merged_frontier, final_frontier)?;
        proof {
            assert(texts@.subrange(0, n as int) =~= prefix);
        }
        if final_frontier as u128 + (new_len - merged_frontier) as u128 > usize::MAX as u128 {
            return Err(LayoutError::InvalidInterval);
        }
        let mut segments = self.segments.clone();
        segments.push(
            LineSegment {
                line: next.line,
                offset_of_line: next.offset_of_line,
                merge_col: base,
                len: next.origin_text_len,
            },
        );
        let ghost old_segs = self.segments@;
        let ghost old_self_texts = self.texts@;
        proof {
            assert(old_self_texts == old_texts);
            assert forall|jj: int| 0 <= jj < n - 1 implies #[trigger] texts@[jj] == old_texts[jj] by {
                assert(texts@.subrange(0, n as int)[jj] == prefix[jj]);
            }
            assert(texts@.subrange(0, n as int)[n - 1] == prefix[n - 1]);
            assert(texts@[n - 1] == last_g);
        }
        self.segments = segments;
        self.origin_text_len = new_len;
        self.final_text_len = final_frontier + (new_len - merged_frontier);
        self.texts = texts;
        proof {
            assert(self.segments@.last() == self.segments@[old_segs.len() as int]);
            assert forall|s: int| 0 <= s < self.segments@.len() - 1 implies #[trigger] self.segments@[s + 1].merge_col == #[trigger] self.segments@[s].merge_col + self.segments@[s].len by {
                if s < old_segs.len() - 1 {
                    assert(self.segments@[s + 1] == old_segs[s + 1]);
                }
            }
            assert forall|s: int, t: int| 0 <= s < t < self.segments@.len() implies (#[trigger] self.segments@[s]).line < (#[trigger] self.segments@[t]).line by {
                if t < old_segs.len() {
                    assert(self.segments@[s] == old_segs[s]);
                    assert(self.segments@[t] == old_segs[t]);
                } else if s < old_segs.len() - 1 {
                    assert(old_segs[s].line < old_segs.last().line);
                }
            }
        }
        Ok(())
    }
}

/// The origin line, origin column and buffer offset that final column `f`
/// of a folded line stands for.
pub open spec fn cursor_position_spec(segs: Seq<LineSegment>, ps: Seq<PhantomText>, f: int) -> (usize, usize, usize) {
    let m = origin_col_spec(ps, f);
    let s = segment_of(segs, m);
    (segs[s].line, (m - segs[s].merge_col) as usize, (segs[s].offset_of_line + m - segs[s].merge_col) as usize)
}

impl PhantomTextMultiLine {
    pub open spec fn cursor_position_of_final_col_spec(&self, f: int) -> (usize, usize, usize) {
        cursor_position_spec(self.segments@, self.texts@, f)
    }

    pub open spec fn final_col_of_col_spec(&self, line: int, col: int) -> int {
        final_col_spec(self.texts@, merge_col_of_spec(self.segments@, line, col))
    }

    fn segment_of_merge_col(&self, m: usize) -> (s: usize)
        requires
            self.wf(),
            m <= self.origin_text_len,
        ensures
            s == segment_of(self.segments@, m as int),
            s < self.segments@.len(),
            self.segments@[s as int].merge_col <= m <= self.segments@[s as int].merge_col + self.segments@[s as int].len,
    {
        proof {
            lemma_segment_from(self.segments@, self.origin_text_len as int, m as int, 0);
        }
        let mut s: usize = 0;
        while s < self.segments.len() - 1 && m >= self.segments[s + 1].merge_col
            invariant
                s < self.segments@.len(),
                segment_of(self.segments@, m as int) == segment_from(self.segments@, m as int, s as int),
            decreases self.segments.len() - s,
        {
            s = s + 1;
        }
        s
    }

    fn segment_of_line(&self, line: usize) -> (s: usize)
        requires
            self.wf(),
        ensures
            s == segment_of_line_from(self.segments@, line as int, 0),
            s < self.segments@.len(),
    {
        proof {
            lemma_segment_of_line_from(self.segments@, line as int, 0);
        }
        let mut s: usize = 0;
        while s < self.segments.len() - 1 && line >= self.segments[s + 1].line
            invariant
                s < self.segments@.len(),
                segment_of_line_from(self.segments@, line as int, 0) == segment_of_line_from(self.segments@, line as int, s as int),
            decreases self.segments.len() - s,
        {
            s = s + 1;
        }
        s
    }

    /// The final column of origin (`line`, `col`) in this folded line. A
    /// position that a fold hides goes to the start of its placeholder.
    pub fn final_col_of_col(&self, line: usize, col: usize) -> (r: usize)
        requires
            self.wf(),
        ensures
            r == self.final_col_of_col_spec(line as int, col as int),
            r <= self.final_text_len,
    {
        let s = self.segment_of_line(line);
        let seg = self.segments[s];
        proof {
            if s + 1 < self.segments@.len() {
                lemma_segments_ordered(self.segments@, self.origin_text_len as int, s as int, self.segments@.len() - 1);
            }
        }
        let m = if seg.line == line && col <= seg.len {
            seg.merge_col + col
        } else {
            seg.merge_col + seg.len
        };
        final_col_of(&self.texts, self.origin_text_len, m)
    }

    /// The origin line, origin column and buffer offset of final column `f`.
    pub fn cursor_position_of_final_col(&self, f: usize) -> (r: (usize, usize, usize))
        requires
            self.wf(),
            f <= self.final_text_len,
        ensures
            r == self.cursor_position_of_final_col_spec(f as int),
    {
        let m = origin_col_of(&self.texts, self.origin_text_len, f);
        let s = self.segment_of_merge_col(m);
        let seg = self.segments[s];
        let col = m - seg.merge_col;
        (seg.line, col, seg.offset_of_line + col)
    }

    /// The index of the phantom whose text holds final column `f`, if any.
    pub fn text_of_final_col(&self, f: usize) -> (r: Option<usize>)
        requires
            self.wf(),
        ensures
            r matches Some(k) ==> phantom_at_final_spec(self.texts@, f as int) == Some(k as int),
            r is None ==> phantom_at_final_spec(self.texts@, f as int) is None,
    {
        phantom_at_final(&self.texts, self.origin_text_len, f)
    }
}

/// Round trip through a folded line: a position of one of its origin lines
/// that no phantom hides maps to a final column that maps back to the same
/// line, column and buffer offset.
pub proof fn lemma_folded_round_trip(fl: PhantomTextMultiLine, t: int, col: int)
    requires
        fl.wf(),
        0 <= t < fl.segments@.len(),
        0 <= col <= fl.segments@[t].len,
        col == fl.segments@[t].len ==> t == fl.segments@.len() - 1,
        !hidden_inside(fl.texts@, fl.segments@[t].merge_col + col),
    ensures
        fl.cursor_position_of_final_col_spec(
            fl.final_col_of_col_spec(fl.segments@[t].line as int, col),
        ) == (fl.segments@[t].line, col as usize, (fl.segments@[t].offset_of_line + col) as usize),
{
    let segs = fl.segments@;
    let ps = fl.texts@;
    let len = fl.origin_text_len as int;
    let m = segs[t].merge_col + col;
    lemma_segment_of_line(segs, len, t);
    assert(merge_col_of_spec(segs, segs[t].line as int, col) == m);
    if t < segs.len() - 1 {
        lemma_segments_ordered(segs, len, t, segs.len() - 1);
    }
    lemma_first_not_before(ps, m, 0);
    let k = first_not_before(ps, m, 0);
    if k < ps.len() && ps[k].merge_col < m {
        assert(ps[k].merge_col < m && m < hide_end(ps[k]));
    }
    assert(final_col_spec(ps, m) == col_at_spec(ps, m));
    lemma_round_trip(ps, len, m);
    lemma_segment_of_col(segs, len, t, col);
}

/// The phantoms of `ts` from `n` on are the first `j` phantoms of `nxt`
/// that start at or after `e`, laid at `base`, and all of those are there.
#[verifier::opaque]
pub open spec fn tail_members(ts: Seq<PhantomText>, nxt: Seq<PhantomText>, j: int, e: int, base: usize, n: int) -> bool {
    &&& forall|i: int| n <= i < ts.len() ==> laid_from_some(nxt, j, e, #[trigger] ts[i], base)
    &&& forall|k: int|
        0 <= k < j && (#[trigger] nxt[k]).col >= e ==> exists|i: int| n <= i < ts.len() && laid_from(nxt[k], ts[i], base)
}

proof fn lemma_tail_push(ts: Seq<PhantomText>, q: PhantomText, nxt: Seq<PhantomText>, j: int, e: int, base: usize, n: int)
    requires
        tail_members(ts, nxt, j, e, base, n),
        0 <= j < nxt.len(),
        nxt[j].col >= e,
        laid_from(nxt[j], q, base),
        0 <= n <= ts.len(),
    ensures
        tail_members(ts.push(q), nxt, j + 1, e, base, n),
{
    reveal(tail_members);
    let t2 = ts.push(q);
    assert forall|i: int| n <= i < t2.len() implies laid_from_some(nxt, j + 1, e, #[trigger] t2[i], base) by {
        if i < ts.len() {
            assert(t2[i] == ts[i]);
            let k = choose|k: int| 0 <= k < j && 0 <= k < nxt.len() && nxt[k].col >= e && #[trigger] laid_from(nxt[k], ts[i], base);
            assert(laid_from(nxt[k], t2[i], base));
        } else {
            assert(laid_from(nxt[j], t2[i], base));
        }
    }
    assert forall|k: int| 0 <= k < j + 1 && (#[trigger] nxt[k]).col >= e implies exists|i: int|
        n <= i < t2.len() && laid_from(nxt[k], t2[i], base) by {
        if k < j {
            let i0 = choose|i0: int| n <= i0 < ts.len() && laid_from(nxt[k], ts[i0], base);
            assert(t2[i0] == ts[i0]);
        } else {
            assert(laid_from(nxt[k], t2[ts.len() as int], base));
        }
    }
}

proof fn lemma_tail_skip(ts: Seq<PhantomText>, nxt: Seq<PhantomText>, j: int, e: int, base: usize, n: int)
    requires
        tail_members(ts, nxt, j, e, base, n),
        0 <= j < nxt.len(),
        nxt[j].col < e,
    ensures
        tail_members(ts, nxt, j + 1, e, base, n),
{
    reveal(tail_members);
    assert forall|i: int| n <= i < ts.len() implies laid_from_some(nxt, j + 1, e, #[trigger] ts[i], base) by {
        let k = choose|k: int| 0 <= k < j && 0 <= k < nxt.len() && nxt[k].col >= e && #[trigger] laid_from(nxt[k], ts[i], base);
        assert(laid_from(nxt[k], ts[i], base));
    }
}

/// The phantoms of the laid-out prefix of a merged line are ordered, show
/// text, end by `mf`, and carry their final columns.
pub open spec fn texts_laid(ts: Seq<PhantomText>, mf: int) -> bool {
    &&& forall|k: int|
        0 <= k < ts.len() ==> {
            &&& width(#[trigger] ts[k]) > 0
            &&& hide_end(ts[k]) <= mf
            &&& ts[k].final_col == ts[k].merge_col + shift_prefix(ts, k)
        }
    &&& forall|a: int, b: int| 0 <= a < b < ts.len() ==> hide_end(#[trigger] ts[a]) <= #[trigger] ts[b].merge_col
}

/// Lays the phantoms of `next` that start at or after `end_col` after
/// `texts`, with `next` starting at merged column `base`; returns where
/// the merged and the final text have reached.
#[verifier::rlimit(100)]
fn lay_tail(
    texts: &mut Vec<PhantomText>,
    next: &PhantomTextLine,
    base: usize,
    end_col: usize,
    new_len: usize,
    mf0: usize,
    ff0: usize,
) -> (r: Result<(usize, usize), LayoutError>)
    requires
        next.wf(),
        base + end_col <= mf0 <= new_len,
        new_len == base + next.origin_text_len,
        ff0 as int == mf0 + shift_prefix(old(texts)@, old(texts)@.len() as int),
        forall|k: int|
            0 <= k < next.texts@.len() ==> #[trigger] next.texts@[k].col < end_col || mf0 <= base + next.texts@[k].col,
        texts_laid(old(texts)@, mf0 as int),
    ensures
        r matches Ok((mf, ff)) ==> {
            &&& mf <= new_len
            &&& ff as int == mf + shift_prefix(final(texts)@, final(texts)@.len() as int)
            &&& texts_laid(final(texts)@, mf as int)
            &&& old(texts)@.len() <= final(texts)@.len()
            &&& final(texts)@.subrange(0, old(texts)@.len() as int) == old(texts)@
            &&& tail_members(
                final(texts)@,
                next.texts@,
                next.texts@.len() as int,
                end_col as int,
                base,
                old(texts)@.len() as int,
            )
            &&& ff + (new_len - mf) <= ff0 + (new_len - mf0) + widths_sum(next.texts@)
            &&& (next.texts@.len() > 0 && next.texts@.last().col >= end_col) ==> final(texts)@.len() > old(texts)@.len()
                && laid_from(next.texts@.last(), final(texts)@.last(), base) && mf == base + next.texts@.last().col
                + next.texts@.last().hide_len
        },
        ff0 + (new_len - mf0) + widths_sum(next.texts@) <= usize::MAX ==> r is Ok,
{
    let n = texts.len();
    let mut merged_frontier = mf0;
    let mut final_frontier = ff0;
    proof {
        assert(texts@.subrange(0, n as int) =~= old(texts)@);
        reveal(tail_members);
    }
        let mut j: usize = 0;
        while j < next.texts.len()
            invariant
                next.wf(),
                j <= next.texts.len(),
                base + end_col <= merged_frontier <= new_len,
                new_len == base + next.origin_text_len,
                final_frontier as int == merged_frontier + shift_prefix(texts@, texts@.len() as int),
                forall|k: int|
                    j <= k < next.texts@.len() ==> #[trigger] next.texts@[k].col < end_col || merged_frontier
                        <= base + next.texts@[k].col,
                forall|k: int|
                    0 <= k < texts@.len() ==> {
                        &&& width(#[trigger] texts@[k]) > 0
                        &&& hide_end(texts@[k]) <= merged_frontier
                        &&& texts@[k].final_col == texts@[k].merge_col + shift_prefix(texts@, k)
                    },
                forall|a: int, b: int|
                    0 <= a < b < texts@.len() ==> hide_end(#[trigger] texts@[a]) <= #[trigger] texts@[b].merge_col,
                n <= texts@.len(),
                texts@.subrange(0, n as int) == old(texts)@,
                n == old(texts)@.len(),
                final_frontier + (new_len - merged_frontier) <= ff0 + (new_len - mf0) + widths_sum(next.texts@.subrange(0, j as int)),
                mf0 <= merged_frontier,
                tail_members(texts@, next.texts@, j as int, end_col as int, base, n as int),
                (j > 0 && next.texts@[j - 1].col >= end_col) ==> texts@.len() > n && laid_from(
                    next.texts@[j - 1],
                    texts@.last(),
                    base,
                ) && merged_frontier == base + next.texts@[j - 1].col + next.texts@[j - 1].hide_len,
            decreases next.texts.len() - j,
        {
            let p = &next.texts[j];
            proof {
                assert(next.texts@.subrange(0, j + 1).drop_last() =~= next.texts@.subrange(0, j as int));
                lemma_widths_prefix(next.texts@, j + 1);
                lemma_widths_nonneg(next.texts@.subrange(0, j as int));
                assert(hide_end(next.texts@[j as int]) <= next.origin_text_len);
            }
            if p.col >= end_col {
                let merge_col = base + p.col;
                let w = text_width(p);
                if final_frontier as u128 + (merge_col - merged_frontier) as u128 + w as u128
                    > usize::MAX as u128 {
                    return Err(LayoutError::InvalidInterval);
                }
                let final_col = final_frontier + (merge_col - merged_frontier);
                let q = PhantomText {
                    kind: p.kind,
                    line: p.line,
                    col: p.col,
                    merge_col,
                    final_col,
                    hide_len: p.hide_len,
                    text: p.text.clone(),
                    affinity: p.affinity,
                };
                let ghost before = texts@;
                texts.push(q);
                proof {
                    assert forall|k: int| 0 <= k < before.len() implies shift_prefix(texts@, k) == shift_prefix(before, k) by {
                        lemma_shift_prefix_push(before, q, k);
                    }
                    lemma_shift_prefix_push(before, q, before.len() as int);
                    assert(texts@[before.len() as int] == q);
                    assert(texts@.subrange(0, n as int) =~= before.subrange(0, n as int));
                    assert(before.subrange(0, n as int) == old(texts)@);
                    assert(laid_from(next.texts@[j as int], q, base));
                    lemma_tail_push(before, q, next.texts@, j as int, end_col as int, base, n as int);
                    assert(texts@ == before.push(q));
                    assert forall|k: int| j < k < next.texts@.len() implies #[trigger] next.texts@[k].col < end_col || merge_col + p.hide_len <= base + next.texts@[k].col by {
                        assert(hide_end(next.texts@[j as int]) <= next.texts@[k].merge_col);
                    }
                }
                merged_frontier = merge_col + p.hide_len;
                final_frontier = final_col + w;
            } else {
                proof {
                    lemma_tail_skip(texts@, next.texts@, j as int, end_col as int, base, n as int);
                }
            }
            j = j + 1;
        }
    proof {
        assert(next.texts@.subrange(0, next.texts@.len() as int) =~= next.texts@);
        if next.texts@.len() > 0 {
            assert(next.texts@.last() == next.texts@[next.texts@.len() - 1]);
        }
    }
    Ok((merged_frontier, final_frontier))
}

/// `q` is one of the first `upto` phantoms of `ps` that start at or after
/// `e`, laid at merged column `base`.
pub open spec fn laid_from_some(ps: Seq<PhantomText>, upto: int, e: int, q: PhantomText, base: usize) -> bool {
    exists|k: int| 0 <= k < upto && 0 <= k < ps.len() && ps[k].col >= e && #[trigger] laid_from(ps[k], q, base)
}

/// `q` is phantom `p` of a line laid at merged column `base`.
pub open spec fn laid_from(p: PhantomText, q: PhantomText, base: usize) -> bool {
    q == (PhantomText { merge_col: (base + p.col) as usize, final_col: q.final_col, ..p })
}

/// The final length of the shown text, given the phantoms' final columns.
fn origin_final_len(ps: &Vec<PhantomText>, origin_len: usize) -> (r: usize)
    requires
        phantoms_wf(ps@, origin_len as int),
    ensures
        r == final_len(ps@, origin_len as int),
{
    let n = ps.len();
    if n == 0 {
        origin_len
    } else {
        proof {
            lemma_phantom_end(ps@, origin_len as int, n - 1);
            lemma_final_bounded(ps@, origin_len as int, n - 1);
        }
        let last = &ps[n - 1];
        (origin_len - (last.merge_col + last.hide_len)) + last.final_col + text_width(last)
    }
}

} // verus!

verus! {

/// The bytes of a phantom's text.
pub open spec fn text_bytes(p: PhantomText) -> Seq<u8> {
    encode_utf8(p.text@)
}

/// The shown text from phantom `i` on, when the origin text has been shown
/// up to byte `pos`: the origin bytes up to the phantom's column, its text,
/// and the rest after the span it hides.
pub open spec fn final_text_from(ps: Seq<PhantomText>, origin: Seq<u8>, i: int, pos: int) -> Seq<u8>
    decreases ps.len() - i,
{
    if i < 0 || i >= ps.len() {
        origin.subrange(pos, origin.len() as int)
    } else {
        origin.subrange(pos, ps[i].merge_col as int) + text_bytes(ps[i]) + final_text_from(
            ps,
            origin,
            i + 1,
            hide_end(ps[i]),
        )
    }
}

/// The merged origin text of a fold chain: the bytes of each chain line.
pub open spec fn merged_origin_text(segs: Seq<LineSegment>, buffer: Seq<u8>) -> Seq<u8>
    decreases segs.len(),
{
    if segs.len() == 0 {
        seq![]
    } else {
        merged_origin_text(segs.drop_last(), buffer) + buffer.subrange(
            segs.last().offset_of_line as int,
            segs.last().offset_of_line + segs.last().len,
        )
    }
}

fn push_bytes(out: &mut Vec<u8>, src: &[u8], from: usize, to: usize)
    requires
        from <= to <= src@.len(),
    ensures
        final(out)@ == old(out)@ + src@.subrange(from as int, to as int),
{
    let mut i = from;
    while i < to
        invariant
            from <= i <= to,
            to <= src@.len(),
            out@ == old(out)@ + src@.subrange(from as int, i as int),
        decreases to - i,
    {
        out.push(src[i]);
        proof {
            assert(src@.subrange(from as int, i + 1) =~= src@.subrange(from as int, i as int).push(src@[i as int]));
        }
        i = i + 1;
    }
}

impl PhantomTextMultiLine {
    /// The origin text of the folded line, taken from the buffer bytes.
    pub fn origin_text(&self, buffer: &Vec<u8>) -> (r: Result<Vec<u8>, LayoutError>)
        requires
            self.wf(),
        ensures
            r matches Ok(t) ==> t@ == merged_origin_text(self.segments@, buffer@),
            r is Err <==> exists|s: int|
                0 <= s < self.segments@.len() && (#[trigger] self.segments@[s]).offset_of_line
                    + self.segments@[s].len > buffer@.len(),
    {
        let mut out: Vec<u8> = Vec::new();
        let mut s: usize = 0;
        while s < self.segments.len()
            invariant
                self.wf(),
                s <= self.segments@.len(),
                out@ == merged_origin_text(self.segments@.subrange(0, s as int), buffer@),
                forall|t: int| 0 <= t < s ==> (#[trigger] self.segments@[t]).offset_of_line + self.segments@[t].len <= buffer@.len(),
            decreases self.segments.len() - s,
        {
            let seg = self.segments[s];
            if seg.offset_of_line + seg.len > buffer.len() {
                return Err(LayoutError::InvalidInterval);
            }
            push_bytes(&mut out, buffer.as_slice(), seg.offset_of_line, seg.offset_of_line + seg.len);
            proof {
                let sub = self.segments@.subrange(0, s + 1);
                assert(sub.drop_last() =~= self.segments@.subrange(0, s as int));
                assert(sub.last() == seg);
            }
            s = s + 1;
        }
        proof {
            assert(self.segments@.subrange(0, s as int) =~= self.segments@);
        }
        Ok(out)
    }

    /// The text handed to the shaper: the merged origin text with each
    /// phantom's text inserted at its column in place of the bytes it hides.
    #[verifier::rlimit(100)]
    pub fn final_line_content(&self, origin: &Vec<u8>) -> (r: Vec<u8>)
        requires
            self.wf(),
            origin@.len() == self.origin_text_len,
        ensures
            r@ == final_text_from(self.texts@, origin@, 0, 0),
    {
        let ps = &self.texts;
        let mut out: Vec<u8> = Vec::new();
        let mut pos: usize = 0;
        let mut i: usize = 0;
        while i < ps.len()
            invariant
                phantoms_wf(ps@, self.origin_text_len as int),
                origin@.len() == self.origin_text_len,
                i <= ps@.len(),
                pos <= origin@.len(),
                i > 0 ==> pos == hide_end(ps@[i - 1]),
                i == 0 ==> pos == 0,
                out@ + final_text_from(ps@, origin@, i as int, pos as int) == final_text_from(ps@, origin@, 0, 0),
            decreases ps.len() - i,
        {
            let p = &ps[i];
            proof {
                if i > 0 {
                    assert(hide_end(ps@[i - 1]) <= ps@[i as int].merge_col);
                }
            }
            let ghost rest = final_text_from(ps@, origin@, i + 1, hide_end(ps@[i as int]));
            let ghost before = out@;
            push_bytes(&mut out, origin.as_slice(), pos, p.merge_col);
            let tb = p.text.as_str().as_bytes();
            let tlen = tb.len();
            push_bytes(&mut out, tb, 0, tlen);
            proof {
                assert(tb@.subrange(0, tlen as int) =~= text_bytes(ps@[i as int]));
                assert(out@ + rest =~= before + final_text_from(ps@, origin@, i as int, pos as int));
            }
            pos = p.merge_col + p.hide_len;
            i = i + 1;
        }
        let olen = origin.len();
        push_bytes(&mut out, origin.as_slice(), pos, olen);
        proof {
            assert(out@ =~= final_text_from(ps@, origin@, 0, 0));
        }
        out
    }
}

} // verus!

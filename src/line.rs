//! Origin lines, folded lines and visual lines.
use vstd::prelude::*;
use crate::phantom::CursorAffinity;
use crate::phantom::{hide_end, lemma_shift_prefix_same, shift_prefix, PhantomText};
use crate::phantom_line::{LineSegment, PhantomTextLine, PhantomTextMultiLine};
use crate::style::{
    shift_styles, shifted_styles, styles_can_adjust, styles_shift_fits, adjust_styles,
    adjusted_styles, NewLineStyle, Offset,
};

verus! {

/// A half-open range `[start, end)` of offsets or columns.
#[derive(Clone, Copy, Debug, PartialEq, Eq, Structural, Hash)]
pub struct Interval {
    pub start: usize,
    pub end: usize,
}

/// One raw buffer line.
#[derive(Debug)]
pub struct OriginLine {
    pub line_index: usize,
    /// Buffer offset of the first byte: the line is
    /// `[start_offset, start_offset + len)`.
    pub start_offset: usize,
    pub len: usize,
    pub phantom: PhantomTextLine,
    pub semantic_styles: Vec<NewLineStyle>,
    pub diagnostic_styles: Vec<NewLineStyle>,
}

impl OriginLine {
    #[verifier::opaque]
    pub open spec fn wf(&self) -> bool {
        &&& self.phantom.wf()
        &&& self.phantom.line == self.line_index
        &&& self.phantom.offset_of_line == self.start_offset
        &&& self.phantom.origin_text_len == self.len
    }

    /// The semantic styles, moved right by `delta` bytes.
    pub fn semantic_styles(&self, delta: usize) -> (r: Vec<NewLineStyle>)
        requires
            styles_shift_fits(self.semantic_styles@, delta),
        ensures
            r@ == shifted_styles(self.semantic_styles@, delta),
    {
        shift_styles(&self.semantic_styles, delta)
    }

    /// The diagnostic styles, moved right by `delta` bytes.
    pub fn diagnostic_styles(&self, delta: usize) -> (r: Vec<NewLineStyle>)
        requires
            styles_shift_fits(self.diagnostic_styles@, delta),
        ensures
            r@ == shifted_styles(self.diagnostic_styles@, delta),
    {
        shift_styles(&self.diagnostic_styles, delta)
    }

    pub open spec fn can_adjust(&self, offset: Offset, line_offset: Offset) -> bool {
        &&& line_offset.fits(self.line_index)
        &&& offset.fits(self.start_offset)
        &&& offset.fits((self.start_offset + self.len) as usize)
        &&& styles_can_adjust(self.semantic_styles@, offset, line_offset)
        &&& styles_can_adjust(self.diagnostic_styles@, offset, line_offset)
        &&& forall|j: int|
            0 <= j < self.phantom.texts@.len() ==> (#[trigger] self.phantom.texts@[j]).can_adjust_lines(
                line_offset,
            )
    }

    /// The same line after an edit before it moved it by `offset` bytes and
    /// `line_offset` lines.
    pub fn adjust(&self, offset: Offset, line_offset: Offset) -> (r: Self)
        requires
            self.wf(),
            self.can_adjust(offset, line_offset),
        ensures
            r.wf(),
            r.line_index == line_offset.apply(self.line_index),
            r.start_offset == offset.apply(self.start_offset),
            r.len == self.len,
            r.semantic_styles@ == adjusted_styles(self.semantic_styles@, offset, line_offset),
            r.diagnostic_styles@ == adjusted_styles(self.diagnostic_styles@, offset, line_offset),
            r.phantom.folded_line_spec() == match self.phantom.folded_line_spec() {
                Some(l) => Some(line_offset.apply(l)),
                None => None,
            },
    {
        proof {
            reveal(OriginLine::wf);
        }
        let mut semantic_styles = self.semantic_styles.clone();
        let mut diagnostic_styles = self.diagnostic_styles.clone();
        proof {
            assert(semantic_styles@ =~= self.semantic_styles@);
            assert(diagnostic_styles@ =~= self.diagnostic_styles@);
        }
        adjust_styles(&mut semantic_styles, offset, line_offset);
        adjust_styles(&mut diagnostic_styles, offset, line_offset);
        let phantom = self.phantom.adjust(offset, line_offset);
        OriginLine {
            line_index: line_offset.adjusted(self.line_index),
            start_offset: offset.adjusted(self.start_offset),
            len: self.len,
            phantom,
            semantic_styles,
            diagnostic_styles,
        }
    }
}

impl LineSegment {
    pub open spec fn can_adjust(&self, offset: Offset, line_offset: Offset) -> bool {
        &&& line_offset.fits(self.line)
        &&& offset.fits(self.offset_of_line)
        &&& offset.fits((self.offset_of_line + self.len) as usize)
    }

    pub open spec fn adjusted(&self, offset: Offset, line_offset: Offset) -> LineSegment {
        LineSegment { line: line_offset.apply(self.line), offset_of_line: offset.apply(self.offset_of_line), ..*self }
    }
}

impl PhantomTextMultiLine {
    pub open spec fn can_adjust(&self, offset: Offset, line_offset: Offset) -> bool {
        &&& forall|s: int| 0 <= s < self.segments@.len() ==> (#[trigger] self.segments@[s]).can_adjust(offset, line_offset)
        &&& forall|j: int| 0 <= j < self.texts@.len() ==> (#[trigger] self.texts@[j]).can_adjust_lines(line_offset)
    }

    /// The same folded line after an edit before it moved it by `offset`
    /// bytes and `line_offset` lines.
    pub fn adjust(&self, offset: Offset, line_offset: Offset) -> (r: PhantomTextMultiLine)
        requires
            self.wf(),
            self.can_adjust(offset, line_offset),
        ensures
            r.wf(),
            r.origin_text_len == self.origin_text_len,
            r.final_text_len == self.final_text_len,
            r.segments@ == self.segments@.map_values(|g: LineSegment| g.adjusted(offset, line_offset)),
            r.texts@ == self.texts@.map_values(|p: PhantomText| p.lines_adjusted(line_offset)),
    {
        let mut segments: Vec<LineSegment> = Vec::new();
        let mut i: usize = 0;
        while i < self.segments.len()
            invariant
                i <= self.segments@.len(),
                self.can_adjust(offset, line_offset),
                segments@ == self.segments@.subrange(0, i as int).map_values(|g: LineSegment| g.adjusted(offset, line_offset)),
            decreases self.segments.len() - i,
        {
            let g = self.segments[i];
            proof {
                assert(self.segments@[i as int].can_adjust(offset, line_offset));
            }
            let a = LineSegment { line: line_offset.adjusted(g.line), offset_of_line: offset.adjusted(g.offset_of_line), ..g };
            segments.push(a);
            proof {
                assert(self.segments@.subrange(0, i + 1).map_values(|g: LineSegment| g.adjusted(offset, line_offset))
                    =~= self.segments@.subrange(0, i as int).map_values(|g: LineSegment| g.adjusted(offset, line_offset)).push(a));
            }
            i = i + 1;
        }
        let mut texts: Vec<PhantomText> = Vec::new();
        let mut j: usize = 0;
        while j < self.texts.len()
            invariant
                j <= self.texts@.len(),
                self.can_adjust(offset, line_offset),
                texts@ == self.texts@.subrange(0, j as int).map_values(|p: PhantomText| p.lines_adjusted(line_offset)),
            decreases self.texts.len() - j,
        {
            let mut p = self.texts[j].duplicate();
            proof {
                assert(self.texts@[j as int].can_adjust_lines(line_offset));
            }
            p.adjust_lines(line_offset);
            texts.push(p);
            proof {
                assert(self.texts@.subrange(0, j + 1).map_values(|p: PhantomText| p.lines_adjusted(line_offset))
                    =~= self.texts@.subrange(0, j as int).map_values(|p: PhantomText| p.lines_adjusted(line_offset)).push(p));
            }
            j = j + 1;
        }
        proof {
            assert(self.segments@.subrange(0, self.segments@.len() as int) =~= self.segments@);
            assert(self.texts@.subrange(0, self.texts@.len() as int) =~= self.texts@);
            assert forall|k: int| 0 <= k <= texts@.len() implies shift_prefix(texts@, k) == shift_prefix(self.texts@, k) by {
                lemma_shift_prefix_same(texts@, self.texts@, k);
            }
            assert forall|a: int, b: int| 0 <= a < b < texts@.len() implies hide_end(#[trigger] texts@[a]) <= #[trigger] texts@[b].merge_col by {
                assert(hide_end(self.texts@[a]) <= self.texts@[b].merge_col);
            }
            let segs = segments@;
            let old_segs = self.segments@;
            assert(segs.last() == segs[segs.len() - 1]);
            assert(old_segs.last() == old_segs[old_segs.len() - 1]);
            assert forall|s: int, t: int| 0 <= s < t < segs.len() implies (#[trigger] segs[s]).line < (#[trigger] segs[t]).line by {
                assert(old_segs[s].line < old_segs[t].line);
                assert(old_segs[s].can_adjust(offset, line_offset));
                assert(old_segs[t].can_adjust(offset, line_offset));
            }
            assert forall|s: int| 0 <= s < segs.len() - 1 implies #[trigger] segs[s + 1].merge_col == #[trigger] segs[s].merge_col + segs[s].len by {
                assert(old_segs[s + 1].merge_col == old_segs[s].merge_col + old_segs[s].len);
            }
            assert forall|s: int| 0 <= s < segs.len() implies (#[trigger] segs[s]).offset_of_line + segs[s].len <= usize::MAX by {
                assert(old_segs[s].can_adjust(offset, line_offset));
            }
        }
        PhantomTextMultiLine {
            origin_text_len: self.origin_text_len,
            final_text_len: self.final_text_len,
            segments,
            texts,
        }
    }
}

/// One or more origin lines merged by folding, shown as one unit.
#[derive(Debug)]
pub struct OriginFoldedLine {
    pub line_index: usize,
    /// The origin lines `[origin_line_start, origin_line_end]` it covers.
    pub origin_line_start: usize,
    pub origin_line_end: usize,
    /// The buffer offsets it covers.
    pub origin_interval: Interval,
    pub phantom_text: PhantomTextMultiLine,
    /// Final columns of each sub-line that wrapping cut the shown text
    /// into, as the text shaper laid it out.
    pub sub_lines: Vec<usize>,
    /// Styles re-anchored on the merged origin text.
    pub semantic_styles: Vec<NewLineStyle>,
    pub diagnostic_styles: Vec<NewLineStyle>,
}

/// The total width of the first `k` sub-lines.
pub open spec fn sub_prefix(subs: Seq<usize>, k: int) -> int
    decreases k,
{
    if k <= 0 || k > subs.len() {
        0
    } else {
        sub_prefix(subs, k - 1) + subs[k - 1]
    }
}

/// The sub-line that final column `f` falls in, scanning from sub-line `i`
/// with `f` counted from its start, and the column within it. A column at
/// the boundary of two sub-lines goes to the end of the first when the
/// affinity is backward, to the start of the second when it is forward.
pub open spec fn sub_line_from(subs: Seq<usize>, f: int, i: int, forward: bool) -> (int, int)
    decreases subs.len() - i,
{
    if i < 0 || i >= subs.len() - 1 || f < subs[i] || (!forward && f == subs[i]) {
        (i, f)
    } else {
        sub_line_from(subs, f - subs[i], i + 1, forward)
    }
}

pub proof fn lemma_sub_line_from(subs: Seq<usize>, f: int, i: int, forward: bool)
    requires
        0 <= i < subs.len(),
        0 <= f,
    ensures
        ({
            let (k, c) = sub_line_from(subs, f, i, forward);
            &&& i <= k < subs.len()
            &&& 0 <= c
            &&& c + sub_prefix(subs, k) == f + sub_prefix(subs, i)
            &&& k < subs.len() - 1 ==> c <= subs[k]
        }),
    decreases subs.len() - i,
{
    if !(i >= subs.len() - 1 || f < subs[i] || (!forward && f == subs[i])) {
        lemma_sub_line_from(subs, f - subs[i], i + 1, forward);
    }
}

impl OriginFoldedLine {
    pub open spec fn can_adjust(&self, offset: Offset, line_offset: Offset) -> bool {
        &&& offset.fits(self.origin_interval.start)
        &&& offset.fits(self.origin_interval.end)
        &&& line_offset.fits(self.origin_line_start)
        &&& line_offset.fits(self.origin_line_end)
        &&& self.phantom_text.can_adjust(offset, line_offset)
        &&& styles_can_adjust(self.semantic_styles@, offset, line_offset)
        &&& styles_can_adjust(self.diagnostic_styles@, offset, line_offset)
    }

    /// The same folded line after an edit before it moved it by `offset`
    /// bytes and `line_offset` lines, renumbered `line_index`; its layout
    /// is kept.
    pub fn adjust(&self, offset: Offset, line_offset: Offset, line_index: usize) -> (r: Self)
        requires
            self.phantom_text.wf(),
            self.can_adjust(offset, line_offset),
        ensures
            r.phantom_text.wf(),
            r.line_index == line_index,
            r.origin_line_start == line_offset.apply(self.origin_line_start),
            r.origin_line_end == line_offset.apply(self.origin_line_end),
            r.origin_interval == (Interval {
                start: offset.apply(self.origin_interval.start),
                end: offset.apply(self.origin_interval.end),
            }),
            r.phantom_text.segments@ == self.phantom_text.segments@.map_values(
                |g: LineSegment| g.adjusted(offset, line_offset),
            ),
            r.phantom_text.texts@ == self.phantom_text.texts@.map_values(|p: PhantomText| p.lines_adjusted(line_offset)),
            r.phantom_text.final_text_len == self.phantom_text.final_text_len,
            r.sub_lines@ == self.sub_lines@,
            r.semantic_styles@ == adjusted_styles(self.semantic_styles@, offset, line_offset),
            r.diagnostic_styles@ == adjusted_styles(self.diagnostic_styles@, offset, line_offset),
    {
        let mut semantic_styles = self.semantic_styles.clone();
        let mut diagnostic_styles = self.diagnostic_styles.clone();
        proof {
            assert(semantic_styles@ =~= self.semantic_styles@);
            assert(diagnostic_styles@ =~= self.diagnostic_styles@);
        }
        adjust_styles(&mut semantic_styles, offset, line_offset);
        adjust_styles(&mut diagnostic_styles, offset, line_offset);
        OriginFoldedLine {
            line_index,
            origin_line_start: line_offset.adjusted(self.origin_line_start),
            origin_line_end: line_offset.adjusted(self.origin_line_end),
            origin_interval: Interval {
                start: offset.adjusted(self.origin_interval.start),
                end: offset.adjusted(self.origin_interval.end),
            },
            phantom_text: self.phantom_text.adjust(offset, line_offset),
            sub_lines: crate::lines::copy_widths(&self.sub_lines),
            semantic_styles,
            diagnostic_styles,
        }
    }

    /// Length of the shown text.
    pub open spec fn len_spec(&self) -> usize {
        self.phantom_text.final_text_len
    }

    pub fn len(&self) -> (r: usize)
        ensures
            r == self.len_spec(),
    {
        self.phantom_text.final_text_len
    }

    /// Length of the shown text without a line ending of `ending_len` bytes.
    pub fn len_without_rn(&self, ending_len: usize) -> (r: usize)
        ensures
            r == (if self.len_spec() >= ending_len { self.len_spec() - ending_len } else { 0 }),
    {
        let len = self.len();
        if len >= ending_len {
            len - ending_len
        } else {
            0
        }
    }

    pub open spec fn visual_line_of_final_offset_spec(&self, f: int, affinity: CursorAffinity) -> (int, int) {
        sub_line_from(self.sub_lines@, f, 0, affinity == CursorAffinity::Forward)
    }

    /// The sub-line that final column `final_offset` falls in, and the
    /// column within that sub-line.
    pub fn visual_line_of_final_offset(&self, final_offset: usize, affinity: CursorAffinity) -> (r: (
        usize,
        usize,
    ))
        requires
            self.sub_lines@.len() > 0,
        ensures
            r.0 < self.sub_lines@.len(),
            (r.0 as int, r.1 as int) == self.visual_line_of_final_offset_spec(final_offset as int, affinity),
    {
        let forward = match affinity {
            CursorAffinity::Forward => true,
            CursorAffinity::Backward => false,
        };
        let mut i: usize = 0;
        let mut f = final_offset;
        proof {
            lemma_sub_line_from(self.sub_lines@, final_offset as int, 0, forward);
        }
        while i < self.sub_lines.len() - 1 && !(f < self.sub_lines[i] || (!forward && f == self.sub_lines[i]))
            invariant
                i < self.sub_lines@.len(),
                sub_line_from(self.sub_lines@, f as int, i as int, forward) == sub_line_from(
                    self.sub_lines@,
                    final_offset as int,
                    0,
                    forward,
                ),
            decreases self.sub_lines.len() - i,
        {
            f = f - self.sub_lines[i];
            i = i + 1;
        }
        (i, f)
    }

    /// The final column where sub-line `sub_line_index` starts, plus
    /// `line_offset`.
    pub fn final_col_of_visual_line(&self, sub_line_index: usize, line_offset: usize) -> (r: Option<
        usize,
    >)
        ensures
            r matches Some(v) ==> sub_line_index <= self.sub_lines@.len() && v == sub_prefix(
                self.sub_lines@,
                sub_line_index as int,
            ) + line_offset,
            r is None ==> sub_line_index > self.sub_lines@.len() || sub_prefix(
                self.sub_lines@,
                sub_line_index as int,
            ) + line_offset > usize::MAX,
    {
        if sub_line_index > self.sub_lines.len() {
            return None;
        }
        let mut acc: usize = line_offset;
        let mut i: usize = 0;
        while i < sub_line_index
            invariant
                i <= sub_line_index <= self.sub_lines@.len(),
                acc == sub_prefix(self.sub_lines@, i as int) + line_offset,
            decreases sub_line_index - i,
        {
            if acc as u128 + self.sub_lines[i] as u128 > usize::MAX as u128 {
                proof {
                    lemma_sub_prefix_mono(self.sub_lines@, i + 1, sub_line_index as int);
                }
                return None;
            }
            acc = acc + self.sub_lines[i];
            i = i + 1;
        }
        Some(acc)
    }
    /// The buffer offset that final column `line_offset` of sub-line
    /// `sub_line_index` stands for (the column clamped to the shown text).
    pub fn final_offset_of_visual_line(&self, sub_line_index: usize, line_offset: usize) -> (r: Option<usize>)
        requires
            self.phantom_text.wf(),
        ensures
            r matches Some(o) ==> sub_line_index <= self.sub_lines@.len() && o == self.phantom_text.cursor_position_of_final_col_spec(
                if sub_prefix(self.sub_lines@, sub_line_index as int) + line_offset <= self.phantom_text.final_text_len {
                    sub_prefix(self.sub_lines@, sub_line_index as int) + line_offset
                } else {
                    self.phantom_text.final_text_len as int
                },
            ).2,
            r is None ==> sub_line_index > self.sub_lines@.len() || sub_prefix(self.sub_lines@, sub_line_index as int)
                + line_offset > usize::MAX,
    {
        let f = self.final_col_of_visual_line(sub_line_index, line_offset)?;
        let len = self.phantom_text.final_text_len;
        let f = if f <= len { f } else { len };
        Some(self.phantom_text.cursor_position_of_final_col(f).2)
    }


    /// The sub-line, the column within it and the final column of origin
    /// (`origin_line`, `offset`).
    pub fn visual_line_of_line_and_offset(&self, origin_line: usize, offset: usize, affinity: CursorAffinity) -> (r: (usize, usize, usize))
        requires
            self.phantom_text.wf(),
            self.sub_lines@.len() > 0,
        ensures
            r.2 == self.phantom_text.final_col_of_col_spec(origin_line as int, offset as int),
            (r.0 as int, r.1 as int) == self.visual_line_of_final_offset_spec(r.2 as int, affinity),
            r.0 < self.sub_lines@.len(),
    {
        let final_offset = self.phantom_text.final_col_of_col(origin_line, offset);
        let (sub_line, offset_of_visual) = self.visual_line_of_final_offset(final_offset, affinity);
        (sub_line, offset_of_visual, final_offset)
    }
}

pub proof fn lemma_sub_prefix_mono(subs: Seq<usize>, i: int, j: int)
    requires
        0 <= i <= j <= subs.len(),
    ensures
        sub_prefix(subs, i) <= sub_prefix(subs, j),
    decreases j - i,
{
    if i < j {
        lemma_sub_prefix_mono(subs, i, j - 1);
    }
}

/// One on-screen line: sub-line `origin_folded_line_sub_index` of folded line
/// `origin_folded_line`.
#[derive(Clone, Copy, Debug, PartialEq, Eq, Structural, Hash)]
pub struct VisualLine {
    pub line_index: usize,
    /// The buffer offsets it shows.
    pub origin_interval: Interval,
    /// Its final columns within its folded line.
    pub visual_interval: Interval,
    /// The origin line where it starts.
    pub origin_line: usize,
    pub origin_folded_line: usize,
    pub origin_folded_line_sub_index: usize,
}

/// The order of visual lines from top to bottom.
pub open spec fn cmp_y_spec(a: VisualLine, b: VisualLine) -> std::cmp::Ordering {
    if a.origin_folded_line < b.origin_folded_line {
        std::cmp::Ordering::Less
    } else if a.origin_folded_line > b.origin_folded_line {
        std::cmp::Ordering::Greater
    } else if a.origin_folded_line_sub_index < b.origin_folded_line_sub_index {
        std::cmp::Ordering::Less
    } else if a.origin_folded_line_sub_index > b.origin_folded_line_sub_index {
        std::cmp::Ordering::Greater
    } else {
        std::cmp::Ordering::Equal
    }
}

impl VisualLine {
    /// Compares by folded line, then by sub-line.
    pub fn cmp_y(&self, other: &Self) -> (r: std::cmp::Ordering)
        ensures
            r == cmp_y_spec(*self, *other),
    {
        if self.origin_folded_line < other.origin_folded_line {
            std::cmp::Ordering::Less
        } else if self.origin_folded_line > other.origin_folded_line {
            std::cmp::Ordering::Greater
        } else if self.origin_folded_line_sub_index < other.origin_folded_line_sub_index {
            std::cmp::Ordering::Less
        } else if self.origin_folded_line_sub_index > other.origin_folded_line_sub_index {
            std::cmp::Ordering::Greater
        } else {
            std::cmp::Ordering::Equal
        }
    }

    pub open spec fn line_number_spec(&self, show_relative: bool, current_number: Option<usize>) -> Option<int> {
        if self.origin_folded_line_sub_index == 0 {
            let n = self.origin_line + 1;
            Some(
                if show_relative && current_number is Some && current_number.unwrap() != n {
                    if current_number.unwrap() >= n {
                        current_number.unwrap() - n
                    } else {
                        n - current_number.unwrap()
                    }
                } else {
                    n
                },
            )
        } else {
            None
        }
    }

    /// The line number shown beside it: only the first sub-line of a
    /// folded line has one, 1-based, or its distance to `current_number`
    /// when numbers are relative.
    pub fn line_number(&self, show_relative: bool, current_number: Option<usize>) -> (r: Option<usize>)
        requires
            self.origin_line < usize::MAX,
        ensures
            r matches Some(v) ==> self.line_number_spec(show_relative, current_number) == Some(v as int),
            r is None ==> self.line_number_spec(show_relative, current_number) is None,
    {
        if self.origin_folded_line_sub_index == 0 {
            let line_number = self.origin_line + 1;
            Some(
                if show_relative {
                    match current_number {
                        Some(current) => {
                            if line_number == current {
                                line_number
                            } else if current >= line_number {
                                current - line_number
                            } else {
                                line_number - current
                            }
                        },
                        None => line_number,
                    }
                } else {
                    line_number
                },
            )
        } else {
            None
        }
    }
}

} // verus!

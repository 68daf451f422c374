//! Conversions between buffer offsets, origin lines, folded lines and
//! visual lines over a built `DocLines`.
use vstd::prelude::*;
use crate::error::LayoutError;
use crate::line::{lemma_sub_prefix_mono, sub_prefix, VisualLine};
use crate::lines::{
    folded_line_wf, layout_wf, lemma_partition, lemma_partition_ordered, lemma_starts_ordered,
    lemma_visual_start_mono, visual_line_spec, visual_start, DocLines,
};
use crate::fold::FoldPosition;
use crate::phantom::{phantom_at_final_spec, CursorAffinity, PhantomTextKind};

verus! {

/// Where a buffer offset is shown.
#[derive(Clone, Copy, Debug, PartialEq, Eq, Structural, Hash)]
pub struct OffsetPosition {
    pub origin_line: usize,
    pub folded_line: usize,
    pub visual_line: usize,
    /// Column within the visual line.
    pub offset_of_visual: usize,
    /// Final column within the folded line.
    pub offset_of_folded: usize,
    /// The offset is at or past the last character before the line ending.
    pub last_char: bool,
}

/// The lines that show a buffer offset, by index, with the offset's
/// columns in the folded and in the visual line.
#[derive(Clone, Copy, Debug, PartialEq, Eq, Structural, Hash)]
pub struct LinesOfOriginOffset {
    pub origin_offset: usize,
    pub origin_line: usize,
    pub origin_folded_line: usize,
    pub origin_folded_line_offset: usize,
    pub visual_line: usize,
    pub visual_line_offset: usize,
    pub last_char: bool,
}

/// What a click on the shown text hit.
#[derive(Clone, Copy, Debug, PartialEq, Eq, Structural, Hash)]
pub enum ClickResult {
    /// Buffer text.
    NoHint,
    /// Virtual text that leads nowhere.
    MatchWithoutLocation,
    /// The placeholder of the collapsed range that starts at `start`.
    MatchFolded { start: FoldPosition },
    /// `phantom_offset` bytes into the inlay hint at (`line`, `col`).
    MatchHint { line: usize, col: usize, phantom_offset: usize },
}

/// Where the caret goes for "first non-blank".
#[derive(Clone, Copy, Debug, PartialEq, Eq, Structural, Hash)]
pub enum ColPosition {
    FirstNonBlank,
    Start,
    End,
}

/// "First non-blank" from `offset` on a visual line that starts at
/// `line_start` and whose first non-blank character is at
/// `non_blank_offset`: past that character, or at the line start, go to
/// it; otherwise go to the line start.
pub fn non_blank_choice(offset: usize, line_start: usize, non_blank_offset: usize) -> (r: (usize, ColPosition))
    ensures
        r == (if offset > non_blank_offset || line_start == offset {
            (non_blank_offset, ColPosition::FirstNonBlank)
        } else {
            (line_start, ColPosition::Start)
        }),
{
    if offset > non_blank_offset || line_start == offset {
        (non_blank_offset, ColPosition::FirstNonBlank)
    } else {
        (line_start, ColPosition::Start)
    }
}

impl DocLines {
    pub open spec fn click_result_spec(&self, visual_line: int, hit_index: int) -> ClickResult {
        let vl = self.visual_lines@[visual_line];
        let fl = self.origin_folded_lines@[vl.origin_folded_line as int];
        let ps = fl.phantom_text.texts@;
        match phantom_at_final_spec(ps, hit_index) {
            Some(k) => match ps[k].kind {
                PhantomTextKind::InlayHint => ClickResult::MatchHint {
                    line: ps[k].line,
                    col: ps[k].col,
                    phantom_offset: (hit_index - ps[k].final_col) as usize,
                },
                PhantomTextKind::LineFoldedRang { start_line, start_col, .. } => ClickResult::MatchFolded {
                    start: FoldPosition { line: start_line, character: start_col },
                },
                _ => ClickResult::MatchWithoutLocation,
            },
            None => ClickResult::NoHint,
        }
    }

    /// What a click at final column `hit_index` of visual line
    /// `visual_line`'s folded line hit: an inlay hint, a fold placeholder
    /// (the caller expands it), other virtual text, or buffer text.
    pub fn result_of_left_click(&self, visual_line: usize, hit_index: usize) -> (r: Result<ClickResult, LayoutError>)
        requires
            self.wf(),
        ensures
            r matches Ok(c) ==> c == self.click_result_spec(visual_line as int, hit_index as int),
            r is Err <==> visual_line >= self.visual_lines@.len(),
    {
        if visual_line >= self.visual_lines.len() {
            return Err(LayoutError::NotFound);
        }
        proof {
            self.lemma_visual_line_folded(visual_line as int);
        }
        let fl = &self.origin_folded_lines[self.visual_lines[visual_line].origin_folded_line];
        match fl.phantom_text.text_of_final_col(hit_index) {
            Some(k) => {
                let p = &fl.phantom_text.texts[k];
                proof {
                    crate::phantom::lemma_first_not_before_final(fl.phantom_text.texts@, hit_index as int, 0);
                }
                Ok(
                    match p.kind {
                        PhantomTextKind::InlayHint => ClickResult::MatchHint {
                            line: p.line,
                            col: p.col,
                            phantom_offset: hit_index - p.final_col,
                        },
                        PhantomTextKind::LineFoldedRang { start_line, start_col, .. } => ClickResult::MatchFolded {
                            start: FoldPosition { line: start_line, character: start_col },
                        },
                        _ => ClickResult::MatchWithoutLocation,
                    },
                )
            },
            None => Ok(ClickResult::NoHint),
        }
    }

    /// The lines that show buffer offset `origin_offset`, and its offsets
    /// within them; a boundary between visual lines goes to the later one.
    pub fn lines_of_origin_offset(&self, origin_offset: usize, ending_len: usize) -> (r: Result<LinesOfOriginOffset, LayoutError>)
        requires
            self.wf(),
        ensures
            r matches Ok(l) ==> l.origin_offset == origin_offset && self.offset_position_spec(
                origin_offset as int,
                CursorAffinity::Forward,
                ending_len as int,
                OffsetPosition {
                    origin_line: l.origin_line,
                    folded_line: l.origin_folded_line,
                    visual_line: l.visual_line,
                    offset_of_visual: l.visual_line_offset,
                    offset_of_folded: l.origin_folded_line_offset,
                    last_char: l.last_char,
                },
            ),
            r is Err <==> origin_offset > self.buffer_len_spec() || self.origin_lines@.len() == 0,
    {
        let p = self.visual_line_of_offset(origin_offset, CursorAffinity::Forward, ending_len)?;
        Ok(
            LinesOfOriginOffset {
                origin_offset,
                origin_line: p.origin_line,
                origin_folded_line: p.folded_line,
                origin_folded_line_offset: p.offset_of_folded,
                visual_line: p.visual_line,
                visual_line_offset: p.offset_of_visual,
                last_char: p.last_char,
            },
        )
    }

    /// The last visual line.
    pub fn last_visual_line(&self) -> (r: Option<VisualLine>)
        ensures
            r matches Some(v) ==> self.visual_lines@.len() > 0 && v == self.visual_lines@.last(),
            r is None <==> self.visual_lines@.len() == 0,
    {
        if self.visual_lines.len() == 0 {
            None
        } else {
            Some(self.visual_lines[self.visual_lines.len() - 1])
        }
    }

    /// One past the last buffer offset.
    pub open spec fn buffer_len_spec(&self) -> int {
        let ols = self.origin_lines@;
        if ols.len() == 0 {
            0
        } else {
            ols.last().start_offset + ols.last().len
        }
    }

    /// Origin line `l` holds buffer offset `o` (the end of the buffer
    /// belongs to the last line).
    pub open spec fn line_holds(&self, l: int, o: int) -> bool {
        let ols = self.origin_lines@;
        &&& 0 <= l < ols.len()
        &&& ols[l].start_offset <= o
        &&& (o < ols[l].start_offset + ols[l].len || (l == ols.len() - 1 && o == ols[l].start_offset
            + ols[l].len))
    }

    pub open spec fn folded_holds(&self, fi: int, l: int) -> bool {
        let fs = self.origin_folded_lines@;
        0 <= fi < fs.len() && fs[fi].origin_line_start <= l <= fs[fi].origin_line_end
    }

    /// The origin line that holds buffer offset `offset`.
    pub fn origin_line_of_offset(&self, offset: usize) -> (r: Result<usize, LayoutError>)
        requires
            self.wf(),
        ensures
            r matches Ok(l) ==> self.line_holds(l as int, offset as int),
            r is Err <==> offset > self.buffer_len_spec() || self.origin_lines@.len() == 0,
    {
        let n = self.origin_lines.len();
        if n == 0 {
            return Err(LayoutError::NotFound);
        }
        let last = &self.origin_lines[n - 1];
        if offset > last.start_offset + last.len {
            return Err(LayoutError::NotFound);
        }
        let mut l: usize = 0;
        proof {
            lemma_starts_ordered(self.origin_lines@, 0, n - 1);
            if n > 1 {
                lemma_starts_ordered(self.origin_lines@, 0, 1);
            }
        }
        proof {
            assert(crate::lines::origin_lines_wf(self.origin_lines@));
        }
        while l < n - 1 && offset >= self.origin_lines[l].start_offset + self.origin_lines[l].len
            invariant
                crate::lines::origin_lines_wf(self.origin_lines@),
                n == self.origin_lines@.len(),
                l < n,
                self.origin_lines@[l as int].start_offset <= offset,
                offset <= self.buffer_len_spec(),
            decreases n - l,
        {
            proof {
                let ols = self.origin_lines@;
                assert(ols[l + 1].start_offset == ols[l as int].start_offset + ols[l as int].len);
            }
            l = l + 1;
        }
        Ok(l)
    }

    /// The folded line that covers origin line `origin_line`.
    pub fn folded_line_of_origin_line(&self, origin_line: usize) -> (r: Result<usize, LayoutError>)
        requires
            self.wf(),
        ensures
            r matches Ok(fi) ==> self.folded_holds(fi as int, origin_line as int),
            r is Err <==> origin_line >= self.origin_lines@.len(),
    {
        let fs = &self.origin_folded_lines;
        let mut i: usize = 0;
        while i < fs.len()
            invariant
                self.wf(),
                *fs == self.origin_folded_lines,
                i <= fs@.len(),
                forall|j: int| 0 <= j < i ==> !(#[trigger] fs@[j].origin_line_start <= origin_line <= fs@[j].origin_line_end),
            decreases fs.len() - i,
        {
            if fs[i].origin_line_start <= origin_line && origin_line <= fs[i].origin_line_end {
                proof {
                    if origin_line >= self.origin_lines@.len() {
                        assert(fs@.last().origin_line_end == self.origin_lines@.len() - 1);
                        if i < fs@.len() - 1 {
                            lemma_partition_ordered(fs@, self.origin_lines@.len() as int, i as int, fs@.len() - 1);
                        }
                    }
                }
                return Ok(i);
            }
            i = i + 1;
        }
        proof {
            if origin_line < self.origin_lines@.len() {
                lemma_partition(fs@, self.origin_lines@.len() as int, origin_line as int);
            }
        }
        Err(LayoutError::NotFound)
    }

    /// The index of the first visual line of folded line `folded_line`.
    pub fn start_visual_line_of_folded_line(&self, folded_line: usize) -> (r: Result<usize, LayoutError>)
        requires
            self.wf(),
        ensures
            r matches Ok(v) ==> v == visual_start(self.origin_folded_lines@, folded_line as int) && v
                < self.visual_lines@.len() && self.visual_lines@[v as int].origin_folded_line == folded_line
                && self.visual_lines@[v as int].origin_folded_line_sub_index == 0,
            r is Err <==> folded_line >= self.origin_folded_lines@.len(),
    {
        self.visual_line_of_folded_line_and_sub_index(folded_line, 0)
    }

    /// The index of the first visual line of origin line `origin_line`'s
    /// folded line.
    pub fn start_visual_line_of_origin_line(&self, origin_line: usize) -> (r: Result<usize, LayoutError>)
        requires
            self.wf(),
        ensures
            r matches Ok(v) ==> v < self.visual_lines@.len() && self.folded_holds(
                self.visual_lines@[v as int].origin_folded_line as int,
                origin_line as int,
            ) && self.visual_lines@[v as int].origin_folded_line_sub_index == 0,
            r is Err <==> origin_line >= self.origin_lines@.len(),
    {
        let fi = self.folded_line_of_origin_line(origin_line)?;
        self.start_visual_line_of_folded_line(fi)
    }

    /// The index of visual line `sub_index` of folded line `folded_line`.
    pub fn visual_line_of_folded_line_and_sub_index(&self, folded_line: usize, sub_index: usize) -> (r:
        Result<usize, LayoutError>)
        requires
            self.wf(),
        ensures
            r matches Ok(v) ==> {
                &&& v == visual_start(self.origin_folded_lines@, folded_line as int) + sub_index
                &&& v < self.visual_lines@.len()
                &&& self.visual_lines@[v as int] == visual_line_spec(
                    self.origin_folded_lines@[folded_line as int],
                    folded_line as int,
                    sub_index as int,
                    v as int,
                )
                &&& self.visual_lines@[v as int].origin_folded_line == folded_line
                &&& self.visual_lines@[v as int].origin_folded_line_sub_index == sub_index
            },
            r is Err <==> folded_line >= self.origin_folded_lines@.len() || sub_index
                >= self.origin_folded_lines@[folded_line as int].sub_lines@.len(),
    {
        let fs = &self.origin_folded_lines;
        if folded_line >= fs.len() || sub_index >= fs[folded_line].sub_lines.len() {
            return Err(LayoutError::NotFound);
        }
        let mut v: usize = 0;
        let mut i: usize = 0;
        proof {
            lemma_visual_start_mono(fs@, folded_line as int, fs@.len() as int);
            lemma_visual_start_mono(fs@, folded_line as int + 1, fs@.len() as int);
            lemma_visual_start_mono(fs@, 0, folded_line as int);
        }
        while i < folded_line
            invariant
                i <= folded_line < fs@.len(),
                v == visual_start(fs@, i as int),
                visual_start(fs@, folded_line as int) <= usize::MAX,
                visual_start(fs@, folded_line as int) + fs@[folded_line as int].sub_lines@.len() <= self.visual_lines@.len(),
            decreases folded_line - i,
        {
            proof {
                lemma_visual_start_mono(fs@, i + 1, folded_line as int);
            }
            v = v + fs[i].sub_lines.len();
            i = i + 1;
        }
        proof {
            let st = visual_start(fs@, folded_line as int);
            assert(self.visual_lines@[st + sub_index] == visual_line_spec(fs@[folded_line as int], folded_line as int, sub_index as int, st + sub_index));
            reveal(visual_line_spec);
            assert(self.visual_lines@[st + sub_index].origin_folded_line == folded_line);
            assert(self.visual_lines@[st + sub_index].origin_folded_line_sub_index == sub_index);
        }
        Ok(v + sub_index)
    }

    /// The folded line that visual line `visual_line` belongs to.
    pub fn folded_line_of_visual_line(&self, visual_line: usize) -> (r: Result<usize, LayoutError>)
        requires
            self.wf(),
        ensures
            r matches Ok(fi) ==> fi == self.visual_lines@[visual_line as int].origin_folded_line,
            r is Err <==> visual_line >= self.visual_lines@.len(),
    {
        if visual_line >= self.visual_lines.len() {
            return Err(LayoutError::NotFound);
        }
        Ok(self.visual_lines[visual_line].origin_folded_line)
    }

    /// The visual lines `start..=end`, both clamped to the last one.
    pub fn visual_lines(&self, start: usize, end: usize) -> (r: Vec<VisualLine>)
        requires
            self.visual_lines@.len() > 0,
        ensures
            ({
                let last = self.visual_lines@.len() - 1;
                let s = if start <= last { start as int } else { last };
                let e = if end <= last { end as int } else { last };
                r@ == self.visual_lines@.subrange(s, if s <= e { e + 1 } else { s })
            }),
    {
        let last = self.visual_lines.len() - 1;
        let s = if start <= last { start } else { last };
        let e = if end <= last { end } else { last };
        let mut r: Vec<VisualLine> = Vec::new();
        let mut i = s;
        while i <= e
            invariant
                s <= i,
                e < usize::MAX,
                e <= last,
                last == self.visual_lines@.len() - 1,
                i <= e + 1 || i == s,
                r@ == self.visual_lines@.subrange(s as int, if i >= s { i as int } else { s as int }),
            decreases e + 1 - i,
        {
            r.push(self.visual_lines[i]);
            proof {
                assert(self.visual_lines@.subrange(s as int, i + 1) =~= self.visual_lines@.subrange(s as int, i as int).push(self.visual_lines@[i as int]));
            }
            i = i + 1;
        }
        r
    }

    pub open spec fn offset_position_spec(&self, offset: int, affinity: CursorAffinity, ending_len: int, p: OffsetPosition) -> bool {
        let fs = self.origin_folded_lines@;
        let fl = fs[p.folded_line as int];
        let col = offset - self.origin_lines@[p.origin_line as int].start_offset;
        let (sub, in_sub) = fl.visual_line_of_final_offset_spec(p.offset_of_folded as int, affinity);
        &&& self.line_holds(p.origin_line as int, offset)
        &&& self.folded_holds(p.folded_line as int, p.origin_line as int)
        &&& p.offset_of_folded == fl.phantom_text.final_col_of_col_spec(p.origin_line as int, col)
        &&& p.offset_of_visual == in_sub
        &&& p.visual_line == visual_start(fs, p.folded_line as int) + sub
        &&& p.visual_line < self.visual_lines@.len()
        &&& p.last_char == (p.offset_of_folded >= fl.len_spec() - ending_len)
    }

    /// Locates buffer offset `offset`: its origin line, folded line and
    /// visual line, and its columns there. At the boundary of two visual
    /// lines a forward affinity picks the start of the second, a backward
    /// one the end of the first. `ending_len` is the length of the buffer's
    /// line ending.
    pub fn visual_line_of_offset(&self, offset: usize, affinity: CursorAffinity, ending_len: usize) -> (r:
        Result<OffsetPosition, LayoutError>)
        requires
            self.wf(),
        ensures
            r matches Ok(p) ==> self.offset_position_spec(offset as int, affinity, ending_len as int, p),
            r is Err <==> offset > self.buffer_len_spec() || self.origin_lines@.len() == 0,
    {
        let l = self.origin_line_of_offset(offset)?;
        let fi = match self.folded_line_of_origin_line(l) {
            Ok(fi) => fi,
            Err(e) => {
                return Err(e);
            },
        };
        let fl = &self.origin_folded_lines[fi];
        proof {
            assert(folded_line_wf(self.origin_folded_lines@[fi as int], self.origin_lines@));
            assert(layout_wf(self.origin_folded_lines@[fi as int]));
        }
        let col = offset - self.origin_lines[l].start_offset;
        let (sub, offset_of_visual, offset_of_folded) = fl.visual_line_of_line_and_offset(l, col, affinity);
        let start = match self.visual_line_of_folded_line_and_sub_index(fi, sub) {
            Ok(v) => v,
            Err(e) => {
                return Err(e);
            },
        };
        let last_char = offset_of_folded >= fl.len_without_rn(ending_len);
        Ok(
            OffsetPosition {
                origin_line: l,
                folded_line: fi,
                visual_line: start,
                offset_of_visual,
                offset_of_folded,
                last_char,
            },
        )
    }

    pub open spec fn click_spec(&self, visual_line: int, hit_index: int) -> int {
        let vl = self.visual_lines@[visual_line];
        let fl = self.origin_folded_lines@[vl.origin_folded_line as int];
        let f = if hit_index <= fl.phantom_text.final_text_len {
            hit_index
        } else {
            fl.phantom_text.final_text_len as int
        };
        fl.phantom_text.cursor_position_of_final_col_spec(f).2 as int
    }

    /// The buffer offset of a click that the shaper placed at final column
    /// `hit_index` of the folded line of visual line `visual_line`; a
    /// column past the end counts as the end. `is_inside` (whether the
    /// point was over a glyph) is handed back.
    pub fn buffer_offset_of_click(&self, visual_line: usize, hit_index: usize, is_inside: bool) -> (r: Result<
        (usize, bool),
        LayoutError,
    >)
        requires
            self.wf(),
        ensures
            r matches Ok((o, inside)) ==> o == self.click_spec(visual_line as int, hit_index as int)
                && inside == is_inside,
            r is Err <==> visual_line >= self.visual_lines@.len(),
    {
        if visual_line >= self.visual_lines.len() {
            return Err(LayoutError::NotFound);
        }
        let fi = self.visual_lines[visual_line].origin_folded_line;
        proof {
            self.lemma_visual_line_folded(visual_line as int);
        }
        let fl = &self.origin_folded_lines[fi];
        let f = if hit_index <= fl.phantom_text.final_text_len {
            hit_index
        } else {
            fl.phantom_text.final_text_len
        };
        let (_line, _col, offset) = fl.phantom_text.cursor_position_of_final_col(f);
        Ok((offset, is_inside))
    }

    /// Each visual line belongs to a folded line, as the sub-line its index
    /// says.
    pub proof fn lemma_visual_line_folded(&self, v: int)
        requires
            self.wf(),
            0 <= v < self.visual_lines@.len(),
        ensures
            ({
                let fs = self.origin_folded_lines@;
                let vl = self.visual_lines@[v];
                &&& vl.origin_folded_line < fs.len()
                &&& vl.origin_folded_line_sub_index < fs[vl.origin_folded_line as int].sub_lines@.len()
                &&& v == visual_start(fs, vl.origin_folded_line as int) + vl.origin_folded_line_sub_index
                &&& folded_line_wf(fs[vl.origin_folded_line as int], self.origin_lines@)
                &&& layout_wf(fs[vl.origin_folded_line as int])
            }),
    {
        reveal(visual_line_spec);
        let fs = self.origin_folded_lines@;
        let (i, k) = lemma_visual_index(fs, v, 0);
        lemma_visual_start_mono(fs, 0, i);
        assert(folded_line_wf(fs[i], self.origin_lines@) && layout_wf(fs[i]));
        assert(self.visual_lines@[visual_start(fs, i) + k] == visual_line_spec(fs[i], i, k, visual_start(fs, i) + k));
    }

    /// The visual line before `visual_line_index` (the first stays), and
    /// for the final column `line_offset` counted from the start of that
    /// line, the origin column it maps to and whether that column is the
    /// last one of the line.
    pub fn previous_visual_line(&self, visual_line_index: usize, line_offset: usize) -> (r: Result<
        (usize, usize, bool),
        LayoutError,
    >)
        requires
            self.wf(),
        ensures
            r matches Ok((v, col, last)) ==> v == (if visual_line_index >= 1 { visual_line_index - 1 } else { 0 })
                && self.step_spec(v as int, line_offset as int, col as int, last),
            r is Err <==> self.visual_lines@.len() == 0 || visual_line_index > self.visual_lines@.len(),
    {
        if self.visual_lines.len() == 0 || visual_line_index > self.visual_lines.len() {
            return Err(LayoutError::NotFound);
        }
        let v = if visual_line_index >= 1 { visual_line_index - 1 } else { 0 };
        let (col, last) = self.step_to(v, line_offset);
        Ok((v, col, last))
    }

    /// The visual line after `visual_line_index` (the last stays), with the
    /// same column data as `previous_visual_line`.
    pub fn next_visual_line(&self, visual_line_index: usize, line_offset: usize) -> (r: Result<
        (usize, usize, bool),
        LayoutError,
    >)
        requires
            self.wf(),
        ensures
            r matches Ok((v, col, last)) ==> v == (if visual_line_index + 1 < self.visual_lines@.len() {
                visual_line_index + 1
            } else {
                self.visual_lines@.len() - 1
            }) && self.step_spec(v as int, line_offset as int, col as int, last),
            r is Err <==> self.visual_lines@.len() == 0,
    {
        if self.visual_lines.len() == 0 {
            return Err(LayoutError::NotFound);
        }
        let v = if visual_line_index < self.visual_lines.len() - 1 {
            visual_line_index + 1
        } else {
            self.visual_lines.len() - 1
        };
        let (col, last) = self.step_to(v, line_offset);
        Ok((v, col, last))
    }

    /// Column `line_offset` of visual line `v`, counted as a final column of
    /// its folded line and clamped to the shown text, maps to origin column
    /// `col`; `last` tells whether `col` is the last column index of the
    /// sub-line (0 for an empty sub-line).
    pub open spec fn step_spec(&self, v: int, line_offset: int, col: int, last: bool) -> bool {
        let vl = self.visual_lines@[v];
        let fl = self.origin_folded_lines@[vl.origin_folded_line as int];
        let k = vl.origin_folded_line_sub_index as int;
        let f = sub_prefix(fl.sub_lines@, k) + line_offset;
        let f2 = if f <= fl.phantom_text.final_text_len { f } else { fl.phantom_text.final_text_len as int };
        let w = fl.sub_lines@[k];
        let last_col = if w >= 1 { w - 1 } else { 0 };
        &&& col == fl.phantom_text.cursor_position_of_final_col_spec(f2).1
        &&& last == (col == last_col)
    }

    fn step_to(&self, v: usize, line_offset: usize) -> (r: (usize, bool))
        requires
            self.wf(),
            v < self.visual_lines@.len(),
        ensures
            self.step_spec(v as int, line_offset as int, r.0 as int, r.1),
    {
        proof {
            self.lemma_visual_line_folded(v as int);
        }
        let vl = &self.visual_lines[v];
        let fl = &self.origin_folded_lines[vl.origin_folded_line];
        let k = vl.origin_folded_line_sub_index;
        proof {
            lemma_sub_prefix_mono(fl.sub_lines@, k as int, fl.sub_lines@.len() as int);
            lemma_sub_prefix_mono(fl.sub_lines@, 0, k as int);
        }
        let start = match fl.final_col_of_visual_line(k, 0) {
            Some(s) => s,
            None => 0,
        };
        let len = fl.phantom_text.final_text_len;
        let f = if line_offset <= len - start { start + line_offset } else { len };
        let (_line, col, _offset) = fl.phantom_text.cursor_position_of_final_col(f);
        let w = fl.sub_lines[k];
        let last_col = if w >= 1 { w - 1 } else { 0 };
        (col, col == last_col)
    }

    /// The parts of the selection `[start_offset, end_offset)` on each
    /// visual line it spans: `(visual line, start column, end column)` in
    /// final columns of the folded line. The first and last parts are
    /// clipped to the selection; the lines between are taken whole.
    #[verifier::rlimit(80)]
    pub fn selection_ranges(&self, start_offset: usize, end_offset: usize, ending_len: usize) -> (r: Result<
        Vec<(usize, usize, usize)>,
        LayoutError,
    >)
        requires
            self.wf(),
        ensures
            r matches Ok(v) ==> {
                &&& v@.len() > 0
                &&& exists|ps: OffsetPosition, pe: OffsetPosition| {
                    &&& self.offset_position_spec(start_offset as int, CursorAffinity::Forward, ending_len as int, ps)
                    &&& self.offset_position_spec(end_offset as int, CursorAffinity::Forward, ending_len as int, pe)
                    &&& v@[0].0 == ps.visual_line
                    &&& v@[0].1 == ps.offset_of_folded
                    &&& v@.last().0 == (if ps.visual_line >= pe.visual_line { ps.visual_line } else { pe.visual_line })
                    &&& v@.last().2 == pe.offset_of_folded
                    &&& (ps.visual_line >= pe.visual_line <==> v@.len() == 1)
                    &&& ps.visual_line < pe.visual_line ==> v@[0].2 == self.visual_lines@[ps.visual_line as int].visual_interval.end
                        && v@.last().1 == self.visual_lines@[pe.visual_line as int].visual_interval.start
                }
                &&& forall|i: int| 0 <= i < v@.len() ==> (#[trigger] v@[i]).0 < self.visual_lines@.len()
                &&& forall|i: int| 0 < i < v@.len() ==> (#[trigger] v@[i]).0 == v@[i - 1].0 + 1
                &&& forall|i: int|
                    0 < i < v@.len() - 1 ==> (#[trigger] v@[i]).1 == self.visual_lines@[v@[i].0 as int].visual_interval.start
                        && v@[i].2 == self.visual_lines@[v@[i].0 as int].visual_interval.end
            },
            r is Err <==> start_offset > self.buffer_len_spec() || end_offset > self.buffer_len_spec()
                || self.origin_lines@.len() == 0,
    {
        let s = self.visual_line_of_offset(start_offset, CursorAffinity::Forward, ending_len)?;
        let e = match self.visual_line_of_offset(end_offset, CursorAffinity::Forward, ending_len) {
            Ok(e) => e,
            Err(err) => {
                return Err(err);
            },
        };
        let mut r: Vec<(usize, usize, usize)> = Vec::new();
        if s.visual_line >= e.visual_line {
            r.push((s.visual_line, s.offset_of_folded, e.offset_of_folded));
            proof {
                assert(r@.last() == r@[0]);
            }
            return Ok(r);
        }
        r.push((s.visual_line, s.offset_of_folded, self.visual_lines[s.visual_line].visual_interval.end));
        let mut v = s.visual_line + 1;
        while v < e.visual_line
            invariant
                self.wf(),
                s.visual_line < v <= e.visual_line < self.visual_lines@.len(),
                r@.len() == v - s.visual_line,
                r@.len() > 0,
                r@.last().0 == v - 1,
                r@[0].0 == s.visual_line && r@[0].1 == s.offset_of_folded,
                r@[0].2 == self.visual_lines@[s.visual_line as int].visual_interval.end,
                forall|i: int| 0 <= i < r@.len() ==> (#[trigger] r@[i]).0 < self.visual_lines@.len(),
                forall|i: int| 0 < i < r@.len() ==> (#[trigger] r@[i]).0 == r@[i - 1].0 + 1,
                forall|i: int|
                    0 < i < r@.len() ==> (#[trigger] r@[i]).1 == self.visual_lines@[r@[i].0 as int].visual_interval.start
                        && r@[i].2 == self.visual_lines@[r@[i].0 as int].visual_interval.end,
            decreases e.visual_line - v,
        {
            let vl = &self.visual_lines[v];
            r.push((v, vl.visual_interval.start, vl.visual_interval.end));
            v = v + 1;
        }
        r.push((e.visual_line, self.visual_lines[e.visual_line].visual_interval.start, e.offset_of_folded));
        proof {
            assert(r@[0].0 == s.visual_line && r@[0].1 == s.offset_of_folded);
            assert(r@.last().1 == self.visual_lines@[e.visual_line as int].visual_interval.start);
            assert(r@[0].2 == self.visual_lines@[s.visual_line as int].visual_interval.end);
        }
        Ok(r)
    }
}

/// Round trip for buffer offsets: an offset on an origin line that its
/// folded line shows (not one that a fold swallows whole), and that no
/// phantom hides, maps to a final column of the folded line that maps back
/// to the same offset.
pub proof fn lemma_offset_round_trip(d: DocLines, fi: int, t: int, o: int)
    requires
        d.wf(),
        0 <= fi < d.origin_folded_lines@.len(),
        0 <= t < d.origin_folded_lines@[fi].phantom_text.segments@.len(),
        d.line_holds(d.origin_folded_lines@[fi].phantom_text.segments@[t].line as int, o),
        !crate::phantom::hidden_inside(
            d.origin_folded_lines@[fi].phantom_text.texts@,
            d.origin_folded_lines@[fi].phantom_text.segments@[t].merge_col + o
                - d.origin_lines@[d.origin_folded_lines@[fi].phantom_text.segments@[t].line as int].start_offset,
        ),
    ensures
        ({
            let fl = d.origin_folded_lines@[fi].phantom_text;
            let l = fl.segments@[t].line as int;
            let col = o - d.origin_lines@[l].start_offset;
            fl.cursor_position_of_final_col_spec(fl.final_col_of_col_spec(l, col)).2 == o
        }),
{
    let fs = d.origin_folded_lines@;
    let fl = fs[fi].phantom_text;
    let segs = fl.segments@;
    let ols = d.origin_lines@;
    let l = segs[t].line as int;
    let col = o - ols[l].start_offset;
    assert(folded_line_wf(fs[fi], ols));
    reveal(folded_line_wf);
    assert(segs[t].offset_of_line == ols[l].start_offset && segs[t].len == ols[l].len);
    if col == segs[t].len && t < segs.len() - 1 {
        assert(segs[t].line < segs[t + 1].line);
        assert(segs[t + 1].line < ols.len());
    }
    crate::phantom_line::lemma_folded_round_trip(fl, t, col);
}

/// Where on a visual line the caret goes when it moves onto it.
#[derive(Clone, Copy, Debug, PartialEq, Eq, Structural, Hash)]
pub enum HorizCol {
    /// The final column that the shaper's hit test gave.
    Hit(usize),
    Start,
    End,
    FirstNonBlank,
}

/// An ASCII whitespace byte: tab, line feed, vertical tab, form feed,
/// carriage return or space.
pub open spec fn is_blank_byte(b: u8) -> bool {
    b == 32 || (9 <= b && b <= 13)
}

/// The first final column from `f` before `end` whose shown byte is not
/// blank, or `end`.
pub open spec fn first_non_blank_from(shown: Seq<u8>, f: int, end: int) -> int
    decreases end - f,
{
    if f >= end {
        end
    } else if f < shown.len() && !is_blank_byte(shown[f]) {
        f
    } else {
        first_non_blank_from(shown, f + 1, end)
    }
}

proof fn lemma_first_non_blank_from(shown: Seq<u8>, f: int, end: int)
    requires
        f <= end,
    ensures
        f <= first_non_blank_from(shown, f, end) <= end,
    decreases end - f,
{
    if f < end && !(f < shown.len() && !is_blank_byte(shown[f])) {
        lemma_first_non_blank_from(shown, f + 1, end);
    }
}

impl DocLines {
    /// The buffer offset the caret goes to on visual line `v`: for a hit,
    /// that of the final column (clamped to the shown text); the start or
    /// end of the line's buffer range; or that of the line's first
    /// non-blank shown byte (its end when there is none). `shown` is the
    /// shown text of the line's folded line.
    pub open spec fn horiz_col_spec(&self, h: HorizCol, v: int, shown: Seq<u8>) -> int {
        let vl = self.visual_lines@[v];
        let fl = self.origin_folded_lines@[vl.origin_folded_line as int];
        let len = fl.phantom_text.final_text_len as int;
        match h {
            HorizCol::Hit(n) => fl.phantom_text.cursor_position_of_final_col_spec(
                if n <= len { n as int } else { len },
            ).2 as int,
            HorizCol::Start => vl.origin_interval.start as int,
            HorizCol::End => vl.origin_interval.end as int,
            HorizCol::FirstNonBlank => fl.phantom_text.cursor_position_of_final_col_spec(
                first_non_blank_from(shown, vl.visual_interval.start as int, vl.visual_interval.end as int),
            ).2 as int,
        }
    }

    /// "First non-blank" from buffer offset `offset`: the caret's visual
    /// line is located with its affinity, the line's first non-blank
    /// offset is found in `shown` (the shown text of its folded line), and
    /// the target is chosen by `non_blank_choice`; the affinity becomes
    /// forward. When the offset has no line, nothing changes.
    pub fn first_non_blank(&self, affinity: &mut CursorAffinity, offset: usize, ending_len: usize, shown: &Vec<u8>) -> (r: Result<
        (usize, ColPosition),
        LayoutError,
    >)
        requires
            self.wf(),
        ensures
            r is Err <==> offset > self.buffer_len_spec() || self.origin_lines@.len() == 0,
            r is Err ==> *final(affinity) == *old(affinity),
            r matches Ok(res) ==> *final(affinity) == CursorAffinity::Forward && exists|p: OffsetPosition| {
                &&& self.offset_position_spec(offset as int, *old(affinity), ending_len as int, p)
                &&& res == (if offset > self.horiz_col_spec(HorizCol::FirstNonBlank, p.visual_line as int, shown@)
                    || self.visual_lines@[p.visual_line as int].origin_interval.start == offset {
                    (self.horiz_col_spec(HorizCol::FirstNonBlank, p.visual_line as int, shown@) as usize, ColPosition::FirstNonBlank)
                } else {
                    (self.visual_lines@[p.visual_line as int].origin_interval.start, ColPosition::Start)
                })
            },
    {
        let p = self.visual_line_of_offset(offset, *affinity, ending_len)?;
        let nb = match self.rvline_horiz_col(HorizCol::FirstNonBlank, p.visual_line, shown) {
            Ok(o) => o,
            Err(e) => {
                return Err(e);
            },
        };
        let start = self.visual_lines[p.visual_line].origin_interval.start;
        *affinity = CursorAffinity::Forward;
        Ok(non_blank_choice(offset, start, nb))
    }

    /// The caret one visual line up (`up`) or down from buffer offset
    /// `offset`: the target line is the one before (the first stays) or
    /// after (the last stays) the caret's visual line, the caret goes to
    /// the remembered horizontal position `horiz` on it (`shown` is the
    /// shown text of the target line's folded line), and it leans forward
    /// when the column it came from maps to column 0 of its origin line,
    /// backward otherwise.
    pub fn move_vertically(
        &self,
        up: bool,
        offset: usize,
        affinity: CursorAffinity,
        horiz: HorizCol,
        ending_len: usize,
        shown: &Vec<u8>,
    ) -> (r: Result<(usize, HorizCol, CursorAffinity), LayoutError>)
        requires
            self.wf(),
        ensures
            r is Err <==> offset > self.buffer_len_spec() || self.origin_lines@.len() == 0,
            r matches Ok((o, h, a)) ==> h == horiz && self.moved(up, offset, affinity, horiz, ending_len, shown@, o, a),
    {
        let p = self.visual_line_of_offset(offset, affinity, ending_len)?;
        let step = if up {
            self.previous_visual_line(p.visual_line, p.offset_of_visual)
        } else {
            self.next_visual_line(p.visual_line, p.offset_of_visual)
        };
        let (v, col, _last) = match step {
            Ok(t) => t,
            Err(e) => {
                return Err(e);
            },
        };
        let o = match self.rvline_horiz_col(horiz, v, shown) {
            Ok(o) => o,
            Err(e) => {
                return Err(e);
            },
        };
        let a = if col == 0 { CursorAffinity::Forward } else { CursorAffinity::Backward };
        proof {
            assert(v == self.move_target(up, p.visual_line as int));
            assert(self.offset_position_spec(offset as int, affinity, ending_len as int, p));
            assert(self.step_spec(self.move_target(up, p.visual_line as int), p.offset_of_visual as int, col as int, _last));
        }
        Ok((o, horiz, a))
    }

    /// The caret one visual line up.
    pub fn move_up(&self, offset: usize, affinity: CursorAffinity, horiz: HorizCol, ending_len: usize, shown: &Vec<u8>) -> (r:
        Result<(usize, HorizCol, CursorAffinity), LayoutError>)
        requires
            self.wf(),
        ensures
            r is Err <==> offset > self.buffer_len_spec() || self.origin_lines@.len() == 0,
            r matches Ok((o, h, a)) ==> h == horiz && self.moved(true, offset, affinity, horiz, ending_len, shown@, o, a),
    {
        self.move_vertically(true, offset, affinity, horiz, ending_len, shown)
    }

    /// The caret one visual line down.
    pub fn move_down(&self, offset: usize, affinity: CursorAffinity, horiz: HorizCol, ending_len: usize, shown: &Vec<u8>) -> (r:
        Result<(usize, HorizCol, CursorAffinity), LayoutError>)
        requires
            self.wf(),
        ensures
            r is Err <==> offset > self.buffer_len_spec() || self.origin_lines@.len() == 0,
            r matches Ok((o, h, a)) ==> h == horiz && self.moved(false, offset, affinity, horiz, ending_len, shown@, o, a),
    {
        self.move_vertically(false, offset, affinity, horiz, ending_len, shown)
    }

    /// The visual line a move up or down from visual line `v` lands on.
    pub open spec fn move_target(&self, up: bool, v: int) -> int {
        if up {
            if v >= 1 { v - 1 } else { 0 }
        } else if v + 1 < self.visual_lines@.len() {
            v + 1
        } else {
            self.visual_lines@.len() - 1
        }
    }

    /// A move up or down from `offset` lands on buffer offset `o` with
    /// affinity `a`.
    pub open spec fn moved(
        &self,
        up: bool,
        offset: usize,
        affinity: CursorAffinity,
        horiz: HorizCol,
        ending_len: usize,
        shown: Seq<u8>,
        o: usize,
        a: CursorAffinity,
    ) -> bool {
        exists|p: OffsetPosition, col: usize, last: bool|
            #![trigger self.offset_position_spec(offset as int, affinity, ending_len as int, p), self.step_spec(self.move_target(up, p.visual_line as int), p.offset_of_visual as int, col as int, last)]
            {
                &&& self.offset_position_spec(offset as int, affinity, ending_len as int, p)
                &&& self.step_spec(self.move_target(up, p.visual_line as int), p.offset_of_visual as int, col as int, last)
                &&& o == self.horiz_col_spec(horiz, self.move_target(up, p.visual_line as int), shown)
                &&& a == (if col == 0 { CursorAffinity::Forward } else { CursorAffinity::Backward })
            }
    }

    /// The caret to the end of its folded line, before the line ending:
    /// the buffer offset of the last shown column without the ending. The
    /// caret leans forward on an empty line, backward otherwise.
    pub fn end_of_line(&self, affinity: &mut CursorAffinity, offset: usize, ending_len: usize) -> (r: Result<
        (usize, ColPosition),
        LayoutError,
    >)
        requires
            self.wf(),
        ensures
            r is Err <==> offset > self.buffer_len_spec() || self.origin_lines@.len() == 0,
            r is Err ==> *final(affinity) == *old(affinity),
            r matches Ok((o, c)) ==> c == ColPosition::End && exists|p: OffsetPosition|
                #![trigger self.offset_position_spec(offset as int, *old(affinity), ending_len as int, p)]
            {
                let fl = self.origin_folded_lines@[p.folded_line as int];
                let end = if fl.len_spec() >= ending_len { fl.len_spec() - ending_len } else { 0 };
                &&& self.offset_position_spec(offset as int, *old(affinity), ending_len as int, p)
                &&& o == fl.phantom_text.cursor_position_of_final_col_spec(end).2
                &&& *final(affinity) == (if fl.origin_interval.start == fl.origin_interval.end {
                    CursorAffinity::Forward
                } else {
                    CursorAffinity::Backward
                })
            },
    {
        let p = self.visual_line_of_offset(offset, *affinity, ending_len)?;
        proof {
            assert(crate::lines::folded_line_wf(self.origin_folded_lines@[p.folded_line as int], self.origin_lines@));
        }
        let fl = &self.origin_folded_lines[p.folded_line];
        let end = fl.len_without_rn(ending_len);
        let o = fl.phantom_text.cursor_position_of_final_col(end).2;
        *affinity = if fl.origin_interval.start == fl.origin_interval.end {
            CursorAffinity::Forward
        } else {
            CursorAffinity::Backward
        };
        Ok((o, ColPosition::End))
    }

    /// The buffer offset the caret goes to on visual line `visual_line`
    /// for a remembered horizontal position.
    pub fn rvline_horiz_col(&self, horiz: HorizCol, visual_line: usize, shown: &Vec<u8>) -> (r: Result<usize, LayoutError>)
        requires
            self.wf(),
        ensures
            r is Err <==> visual_line >= self.visual_lines@.len(),
            r matches Ok(o) ==> o == self.horiz_col_spec(horiz, visual_line as int, shown@),
    {
        if visual_line >= self.visual_lines.len() {
            return Err(LayoutError::NotFound);
        }
        proof {
            self.lemma_visual_line_folded(visual_line as int);
        }
        let vl = &self.visual_lines[visual_line];
        let fl = &self.origin_folded_lines[vl.origin_folded_line];
        let len = fl.phantom_text.final_text_len;
        match horiz {
            HorizCol::Hit(n) => {
                let f = if n <= len { n } else { len };
                Ok(fl.phantom_text.cursor_position_of_final_col(f).2)
            },
            HorizCol::Start => Ok(vl.origin_interval.start),
            HorizCol::End => Ok(vl.origin_interval.end),
            HorizCol::FirstNonBlank => {
                let k = vl.origin_folded_line_sub_index;
                proof {
                    let fs = self.origin_folded_lines@;
                    let i = vl.origin_folded_line as int;
                    assert(self.visual_lines@[visual_line as int] == visual_line_spec(fs[i], i, k as int, visual_line as int));
                    reveal(visual_line_spec);
                    lemma_sub_prefix_mono(fs[i].sub_lines@, k + 1, fs[i].sub_lines@.len() as int);
                    lemma_sub_prefix_mono(fs[i].sub_lines@, k as int, k + 1);
                    lemma_sub_prefix_mono(fs[i].sub_lines@, 0, k as int);
                    assert(layout_wf(fs[i]));
                    assert(vl.visual_interval.start <= vl.visual_interval.end <= len);
                }
                let end = vl.visual_interval.end;
                let mut f = vl.visual_interval.start;
                proof {
                    lemma_first_non_blank_from(shown@, f as int, end as int);
                }
                while f < end && !(f < shown.len() && !(shown[f] == 32 || (9 <= shown[f] && shown[f] <= 13)))
                    invariant
                        f <= end,
                        end <= len,
                        first_non_blank_from(shown@, f as int, end as int) == first_non_blank_from(
                            shown@,
                            vl.visual_interval.start as int,
                            end as int,
                        ),
                    decreases end - f,
                {
                    f = f + 1;
                }
                Ok(fl.phantom_text.cursor_position_of_final_col(f).2)
            },
        }
    }
}

/// Round trip through `visual_line_of_offset`: the final column it gives
/// for a buffer offset maps back to that offset, when the offset's origin
/// line is one its folded line shows and no phantom hides the offset.
pub proof fn lemma_visual_offset_round_trip(d: DocLines, o: int, affinity: CursorAffinity, ending_len: int, p: OffsetPosition, t: int)
    requires
        d.wf(),
        d.offset_position_spec(o, affinity, ending_len, p),
        0 <= t < d.origin_folded_lines@[p.folded_line as int].phantom_text.segments@.len(),
        d.origin_folded_lines@[p.folded_line as int].phantom_text.segments@[t].line == p.origin_line,
        !crate::phantom::hidden_inside(
            d.origin_folded_lines@[p.folded_line as int].phantom_text.texts@,
            d.origin_folded_lines@[p.folded_line as int].phantom_text.segments@[t].merge_col + o
                - d.origin_lines@[p.origin_line as int].start_offset,
        ),
    ensures
        d.origin_folded_lines@[p.folded_line as int].phantom_text.cursor_position_of_final_col_spec(
            p.offset_of_folded as int,
        ).2 == o,
{
    lemma_offset_round_trip(d, p.folded_line as int, t, o);
}

/// The visual lines are determined by the folded lines: two layouts with
/// the same folded lines (and sub-lines) have the same visual lines. With
/// `lemma_fold_idempotent` this gives back the visual lines after a fold is
/// collapsed and expanded again, wherever the folded lines are rebuilt
/// alike.
pub proof fn lemma_visual_lines_determined(a: DocLines, b: DocLines)
    requires
        a.wf(),
        b.wf(),
        a.origin_folded_lines@ == b.origin_folded_lines@,
    ensures
        a.visual_lines@ == b.visual_lines@,
{
    let fs = a.origin_folded_lines@;
    assert forall|v: int| 0 <= v < a.visual_lines@.len() implies a.visual_lines@[v] == b.visual_lines@[v] by {
        let (i, k) = lemma_visual_index(fs, v, 0);
        assert(a.visual_lines@[visual_start(fs, i) + k] == visual_line_spec(fs[i], i, k, visual_start(fs, i) + k));
        assert(b.visual_lines@[visual_start(fs, i) + k] == visual_line_spec(fs[i], i, k, visual_start(fs, i) + k));
    }
    assert(a.visual_lines@ =~= b.visual_lines@);
}

/// The folded line and sub-line of visual line `v`, searching from folded
/// line `i`.
proof fn lemma_visual_index(fs: Seq<crate::line::OriginFoldedLine>, v: int, i: int) -> (r: (int, int))
    requires
        0 <= i <= fs.len(),
        visual_start(fs, i) <= v < visual_start(fs, fs.len() as int),
    ensures
        i <= r.0 < fs.len(),
        0 <= r.1 < fs[r.0].sub_lines@.len(),
        v == visual_start(fs, r.0) + r.1,
    decreases fs.len() - i,
{
    if i == fs.len() {
        assert(false);
        (0, 0)
    } else if v < visual_start(fs, i) + fs[i].sub_lines@.len() {
        (i, v - visual_start(fs, i))
    } else {
        assert(visual_start(fs, i + 1) == visual_start(fs, i) + fs[i].sub_lines@.len());
        lemma_visual_index(fs, v, i + 1)
    }
}

} // verus!

//! Style spans, and how spans given in buffer offsets are re-anchored on
//! the lines they fall on.
use vstd::prelude::*;

verus! {

/// An RGBA colour.
#[derive(Clone, Copy, Debug, PartialEq, Eq, Structural, Hash)]
pub struct Color {
    pub r: u8,
    pub g: u8,
    pub b: u8,
    pub a: u8,
}

/// A shift of offsets or line numbers caused by an edit.
#[derive(Clone, Copy, Debug, PartialEq, Eq, Structural, Hash)]
pub enum Offset {
    Zero,
    Add(usize),
    Minus(usize),
}

impl Offset {
    /// The shift can be applied to `x` without leaving `usize`.
    pub open spec fn fits(&self, x: usize) -> bool {
        match *self {
            Offset::Zero => true,
            Offset::Add(n) => x + n <= usize::MAX,
            Offset::Minus(n) => n <= x,
        }
    }

    pub open spec fn apply(&self, x: usize) -> usize {
        match *self {
            Offset::Zero => x,
            Offset::Add(n) => (x + n) as usize,
            Offset::Minus(n) => (x - n) as usize,
        }
    }

    pub fn adjust(&self, x: &mut usize)
        requires
            self.fits(*old(x)),
        ensures
            *final(x) == self.apply(*old(x)),
    {
        match *self {
            Offset::Zero => {},
            Offset::Add(n) => {
                *x = *x + n;
            },
            Offset::Minus(n) => {
                *x = *x - n;
            },
        }
    }

    pub fn adjusted(&self, x: usize) -> (r: usize)
        requires
            self.fits(x),
        ensures
            r == self.apply(x),
    {
        let mut y = x;
        self.adjust(&mut y);
        y
    }
}

/// A style span anchored on an origin line.
#[derive(Clone, Copy, Debug, PartialEq, Eq, Structural, Hash)]
pub struct NewLineStyle {
    pub origin_line: usize,
    /// Start of the span relative to the start of its line (or, once its
    /// line is merged into a folded line, to the merged text).
    pub origin_line_offset_start: usize,
    pub len: usize,
    /// The span or line range in buffer offsets that it came from.
    pub start_of_buffer: usize,
    pub end_of_buffer: usize,
    pub fg_color: Color,
}

impl NewLineStyle {
    pub open spec fn can_adjust(&self, offset: Offset, line_offset: Offset) -> bool {
        &&& offset.fits(self.start_of_buffer)
        &&& offset.fits(self.end_of_buffer)
        &&& line_offset.fits(self.origin_line)
    }

    pub open spec fn adjusted_spec(&self, offset: Offset, line_offset: Offset) -> NewLineStyle {
        NewLineStyle {
            origin_line: line_offset.apply(self.origin_line),
            start_of_buffer: offset.apply(self.start_of_buffer),
            end_of_buffer: offset.apply(self.end_of_buffer),
            ..*self
        }
    }

    /// Moves the span by an edit: buffer offsets by `offset`, the line by
    /// `line_offset`.
    pub fn adjust(&mut self, offset: Offset, line_offset: Offset)
        requires
            old(self).can_adjust(offset, line_offset),
        ensures
            *final(self) == old(self).adjusted_spec(offset, line_offset),
    {
        offset.adjust(&mut self.start_of_buffer);
        offset.adjust(&mut self.end_of_buffer);
        line_offset.adjust(&mut self.origin_line);
    }
}

/// A span in buffer offsets, `[start, end)`, with its colour.
#[derive(Clone, Copy, Debug, PartialEq, Eq, Structural, Hash)]
pub struct StyleSpan {
    pub start: usize,
    pub end: usize,
    pub color: Color,
}

/// A diagnostic span in buffer offsets with its severity (1 error,
/// 2 warning, 3 information, 4 hint: smaller is more severe).
#[derive(Clone, Copy, Debug, PartialEq, Eq, Structural, Hash)]
pub struct DiagnosticSpan {
    pub start: usize,
    pub end: usize,
    pub severity: u8,
    pub color: Color,
}

/// Which provider the semantic styles of a document come from.
#[derive(Clone, Copy, Debug, PartialEq, Eq, Structural, Hash)]
pub enum StyleSource {
    Syntax,
    Lsp,
}

pub open spec fn semantic_style_of(line: usize, line_start: usize, sp: StyleSpan) -> NewLineStyle {
    NewLineStyle {
        origin_line: line,
        origin_line_offset_start: (sp.start - line_start) as usize,
        len: (sp.end - sp.start) as usize,
        start_of_buffer: sp.start,
        end_of_buffer: sp.end,
        fg_color: sp.color,
    }
}

/// A semantic span belongs to a line when it lies wholly within it.
pub open spec fn semantic_in_line(line_start: usize, line_end: usize, sp: StyleSpan) -> bool {
    line_start <= sp.start && sp.start <= sp.end && sp.end < line_end
}

/// The semantic styles of the line `[line_start, line_end)`, in span order.
pub open spec fn semantic_styles_spec(
    line: usize,
    line_start: usize,
    line_end: usize,
    spans: Seq<StyleSpan>,
) -> Seq<NewLineStyle>
    decreases spans.len(),
{
    if spans.len() == 0 {
        seq![]
    } else {
        let rest = semantic_styles_spec(line, line_start, line_end, spans.drop_last());
        if semantic_in_line(line_start, line_end, spans.last()) {
            rest.push(semantic_style_of(line, line_start, spans.last()))
        } else {
            rest
        }
    }
}

/// Re-anchors the semantic spans that lie within the line on the line.
pub fn line_semantic_styles(
    line: usize,
    line_start: usize,
    line_end: usize,
    spans: &Vec<StyleSpan>,
) -> (r: Vec<NewLineStyle>)
    ensures
        r@ == semantic_styles_spec(line, line_start, line_end, spans@),
{
    let mut r: Vec<NewLineStyle> = Vec::new();
    let mut i: usize = 0;
    while i < spans.len()
        invariant
            i <= spans.len(),
            r@ == semantic_styles_spec(line, line_start, line_end, spans@.subrange(0, i as int)),
        decreases spans.len() - i,
    {
        let sp = spans[i];
        proof {
            assert(spans@.subrange(0, i + 1).drop_last() =~= spans@.subrange(0, i as int));
        }
        if line_start <= sp.start && sp.start <= sp.end && sp.end < line_end {
            r.push(
                NewLineStyle {
                    origin_line: line,
                    origin_line_offset_start: sp.start - line_start,
                    len: sp.end - sp.start,
                    start_of_buffer: sp.start,
                    end_of_buffer: sp.end,
                    fg_color: sp.color,
                },
            );
        }
        i = i + 1;
    }
    proof {
        assert(spans@.subrange(0, spans@.len() as int) =~= spans@);
    }
    r
}

/// The semantic styles of a line from the active provider.
pub fn line_semantic_styles_from(
    source: StyleSource,
    line: usize,
    line_start: usize,
    line_end: usize,
    syntax_spans: &Vec<StyleSpan>,
    lsp_spans: &Vec<StyleSpan>,
) -> (r: Vec<NewLineStyle>)
    ensures
        r@ == semantic_styles_spec(
            line,
            line_start,
            line_end,
            match source {
                StyleSource::Syntax => syntax_spans@,
                StyleSource::Lsp => lsp_spans@,
            },
        ),
{
    match source {
        StyleSource::Syntax => line_semantic_styles(line, line_start, line_end, syntax_spans),
        StyleSource::Lsp => line_semantic_styles(line, line_start, line_end, lsp_spans),
    }
}

pub open spec fn max_usize(a: usize, b: usize) -> usize {
    if a >= b { a } else { b }
}

pub open spec fn min_usize(a: usize, b: usize) -> usize {
    if a <= b { a } else { b }
}

/// A diagnostic is shown on a line when it overlaps the line and is at
/// least as severe as the cutoff.
pub open spec fn diagnostic_in_line(line_start: usize, line_end: usize, cutoff: u8, d: DiagnosticSpan) -> bool {
    &&& d.start <= d.end
    &&& d.start <= line_end
    &&& line_start <= d.end
    &&& d.severity <= cutoff
}

/// The part of the diagnostic that lies on the line, relative to the line.
pub open spec fn diagnostic_style_of(line: usize, line_start: usize, line_end: usize, d: DiagnosticSpan) -> NewLineStyle {
    let s = max_usize(d.start, line_start);
    let e = min_usize(d.end, line_end);
    NewLineStyle {
        origin_line: line,
        origin_line_offset_start: (s - line_start) as usize,
        len: (e - s) as usize,
        start_of_buffer: line_start,
        end_of_buffer: line_end,
        fg_color: d.color,
    }
}

pub open spec fn diagnostic_styles_spec(
    line: usize,
    line_start: usize,
    line_end: usize,
    cutoff: u8,
    diags: Seq<DiagnosticSpan>,
) -> Seq<NewLineStyle>
    decreases diags.len(),
{
    if diags.len() == 0 {
        seq![]
    } else {
        let rest = diagnostic_styles_spec(line, line_start, line_end, cutoff, diags.drop_last());
        if diagnostic_in_line(line_start, line_end, cutoff, diags.last()) {
            rest.push(diagnostic_style_of(line, line_start, line_end, diags.last()))
        } else {
            rest
        }
    }
}

/// Re-anchors the diagnostics that overlap the line `[line_start,
/// line_end)` on it, clipped to the line; diagnostics less severe than
/// `cutoff` are left out.
pub fn line_diagnostic_styles(
    line: usize,
    line_start: usize,
    line_end: usize,
    cutoff: u8,
    diags: &Vec<DiagnosticSpan>,
) -> (r: Vec<NewLineStyle>)
    requires
        line_start <= line_end,
    ensures
        r@ == diagnostic_styles_spec(line, line_start, line_end, cutoff, diags@),
{
    let mut r: Vec<NewLineStyle> = Vec::new();
    let mut i: usize = 0;
    while i < diags.len()
        invariant
            i <= diags.len(),
            line_start <= line_end,
            r@ == diagnostic_styles_spec(line, line_start, line_end, cutoff, diags@.subrange(0, i as int)),
        decreases diags.len() - i,
    {
        let d = diags[i];
        proof {
            assert(diags@.subrange(0, i + 1).drop_last() =~= diags@.subrange(0, i as int));
        }
        if d.start <= d.end && d.start <= line_end && line_start <= d.end && d.severity <= cutoff {
            let s = if d.start >= line_start { d.start } else { line_start };
            let e = if d.end <= line_end { d.end } else { line_end };
            r.push(
                NewLineStyle {
                    origin_line: line,
                    origin_line_offset_start: s - line_start,
                    len: e - s,
                    start_of_buffer: line_start,
                    end_of_buffer: line_end,
                    fg_color: d.color,
                },
            );
        }
        i = i + 1;
    }
    proof {
        assert(diags@.subrange(0, diags@.len() as int) =~= diags@);
    }
    r
}

/// Projected semantic styles start within their line.
pub proof fn lemma_semantic_within(line: usize, line_start: usize, line_end: usize, spans: Seq<StyleSpan>)
    requires
        line_start <= line_end,
    ensures
        forall|k: int|
            0 <= k < semantic_styles_spec(line, line_start, line_end, spans).len() ==> (#[trigger] semantic_styles_spec(
                line,
                line_start,
                line_end,
                spans,
            )[k]).origin_line_offset_start <= line_end - line_start,
    decreases spans.len(),
{
    if spans.len() > 0 {
        lemma_semantic_within(line, line_start, line_end, spans.drop_last());
        let rest = semantic_styles_spec(line, line_start, line_end, spans.drop_last());
        let all = semantic_styles_spec(line, line_start, line_end, spans);
        assert forall|k: int| 0 <= k < all.len() implies (#[trigger] all[k]).origin_line_offset_start <= line_end - line_start by {
            if k < rest.len() {
                assert(all[k] == rest[k]);
            }
        }
    }
}

/// Projected diagnostic styles start within their line.
pub proof fn lemma_diagnostic_within(line: usize, line_start: usize, line_end: usize, cutoff: u8, diags: Seq<DiagnosticSpan>)
    requires
        line_start <= line_end,
    ensures
        forall|k: int|
            0 <= k < diagnostic_styles_spec(line, line_start, line_end, cutoff, diags).len() ==> (#[trigger] diagnostic_styles_spec(
                line,
                line_start,
                line_end,
                cutoff,
                diags,
            )[k]).origin_line_offset_start <= line_end - line_start,
    decreases diags.len(),
{
    if diags.len() > 0 {
        lemma_diagnostic_within(line, line_start, line_end, cutoff, diags.drop_last());
        let rest = diagnostic_styles_spec(line, line_start, line_end, cutoff, diags.drop_last());
        let all = diagnostic_styles_spec(line, line_start, line_end, cutoff, diags);
        assert forall|k: int| 0 <= k < all.len() implies (#[trigger] all[k]).origin_line_offset_start <= line_end - line_start by {
            if k < rest.len() {
                assert(all[k] == rest[k]);
            }
        }
    }
}

/// The most severe (smallest) severity among the diagnostics shown on the
/// line, combined with `current`.
pub open spec fn max_severity_spec(
    line_start: usize,
    line_end: usize,
    cutoff: u8,
    diags: Seq<DiagnosticSpan>,
    current: Option<u8>,
) -> Option<u8>
    decreases diags.len(),
{
    if diags.len() == 0 {
        current
    } else {
        let rest = max_severity_spec(line_start, line_end, cutoff, diags.drop_last(), current);
        let d = diags.last();
        if diagnostic_in_line(line_start, line_end, cutoff, d) {
            match rest {
                Some(m) => if d.severity < m { Some(d.severity) } else { Some(m) },
                None => Some(d.severity),
            }
        } else {
            rest
        }
    }
}

/// Raises `max_severity` to the most severe diagnostic shown on the line
/// `[line_start, line_end)`; with the error lens off nothing is shown and
/// it stays.
pub fn track_max_severity(
    enable_error_lens: bool,
    line_start: usize,
    line_end: usize,
    cutoff: u8,
    diags: &Vec<DiagnosticSpan>,
    max_severity: &mut Option<u8>,
)
    ensures
        *final(max_severity) == if enable_error_lens {
            max_severity_spec(line_start, line_end, cutoff, diags@, *old(max_severity))
        } else {
            *old(max_severity)
        },
{
    if !enable_error_lens {
        return;
    }
    let ghost start_val = *max_severity;
    let mut i: usize = 0;
    while i < diags.len()
        invariant
            i <= diags@.len(),
            *max_severity == max_severity_spec(line_start, line_end, cutoff, diags@.subrange(0, i as int), start_val),
        decreases diags.len() - i,
    {
        let d = diags[i];
        proof {
            assert(diags@.subrange(0, i + 1).drop_last() =~= diags@.subrange(0, i as int));
        }
        if d.start <= d.end && d.start <= line_end && line_start <= d.end && d.severity <= cutoff {
            *max_severity = match *max_severity {
                Some(m) => if d.severity < m { Some(d.severity) } else { Some(m) },
                None => Some(d.severity),
            };
        }
        i = i + 1;
    }
    proof {
        assert(diags@.subrange(0, diags@.len() as int) =~= diags@);
    }
}

/// The styles moved right by `delta`, as a line's styles are when the line
/// is laid after `delta` bytes of merged text.
pub open spec fn shifted_styles(styles: Seq<NewLineStyle>, delta: usize) -> Seq<NewLineStyle> {
    styles.map_values(
        |x: NewLineStyle|
            NewLineStyle { origin_line_offset_start: (x.origin_line_offset_start + delta) as usize, ..x },
    )
}

pub open spec fn styles_shift_fits(styles: Seq<NewLineStyle>, delta: usize) -> bool {
    forall|i: int| 0 <= i < styles.len() ==> #[trigger] styles[i].origin_line_offset_start + delta <= usize::MAX
}

pub fn shift_styles(styles: &Vec<NewLineStyle>, delta: usize) -> (r: Vec<NewLineStyle>)
    requires
        styles_shift_fits(styles@, delta),
    ensures
        r@ == shifted_styles(styles@, delta),
{
    let mut r: Vec<NewLineStyle> = Vec::new();
    let mut i: usize = 0;
    while i < styles.len()
        invariant
            i <= styles.len(),
            styles_shift_fits(styles@, delta),
            r@ == shifted_styles(styles@.subrange(0, i as int), delta),
        decreases styles.len() - i,
    {
        let mut x = styles[i];
        x.origin_line_offset_start = x.origin_line_offset_start + delta;
        r.push(x);
        proof {
            assert(shifted_styles(styles@.subrange(0, i + 1), delta) =~= shifted_styles(styles@.subrange(0, i as int), delta).push(x));
        }
        i = i + 1;
    }
    proof {
        assert(styles@.subrange(0, styles@.len() as int) =~= styles@);
    }
    r
}

pub open spec fn styles_can_adjust(styles: Seq<NewLineStyle>, offset: Offset, line_offset: Offset) -> bool {
    forall|i: int| 0 <= i < styles.len() ==> #[trigger] styles[i].can_adjust(offset, line_offset)
}

pub open spec fn adjusted_styles(styles: Seq<NewLineStyle>, offset: Offset, line_offset: Offset) -> Seq<NewLineStyle> {
    styles.map_values(|x: NewLineStyle| x.adjusted_spec(offset, line_offset))
}

pub fn adjust_styles(styles: &mut Vec<NewLineStyle>, offset: Offset, line_offset: Offset)
    requires
        styles_can_adjust(old(styles)@, offset, line_offset),
    ensures
        final(styles)@ == adjusted_styles(old(styles)@, offset, line_offset),
{
    let ghost orig = styles@;
    let mut i: usize = 0;
    while i < styles.len()
        invariant
            i <= styles.len(),
            styles@.len() == orig.len(),
            styles_can_adjust(orig, offset, line_offset),
            forall|k: int| 0 <= k < i ==> styles@[k] == (#[trigger] orig[k]).adjusted_spec(offset, line_offset),
            forall|k: int| i <= k < styles@.len() ==> styles@[k] == orig[k],
        decreases styles.len() - i,
    {
        let mut x = styles[i];
        proof {
            assert(orig[i as int].can_adjust(offset, line_offset));
        }
        x.adjust(offset, line_offset);
        styles.set(i, x);
        i = i + 1;
    }
    proof {
        assert(styles@ =~= adjusted_styles(orig, offset, line_offset));
    }
}

} // verus!

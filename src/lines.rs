//! The line builder: origin lines are merged by folding into folded lines,
//! and each folded line is cut into visual lines by the sub-lines that the
//! text shaper laid out.
use vstd::prelude::*;
use crate::error::LayoutError;
use crate::line::{sub_prefix, lemma_sub_prefix_mono, Interval, OriginFoldedLine, OriginLine, VisualLine};
use crate::phantom::final_len;
use crate::phantom_line::PhantomTextMultiLine;
use crate::style::{lemma_diagnostic_within, lemma_semantic_within, 
    diagnostic_styles_spec, line_diagnostic_styles, line_semantic_styles_from, semantic_styles_spec,
    shifted_styles, styles_shift_fits, DiagnosticSpan, NewLineStyle, StyleSource, StyleSpan,
};
use crate::assemble::{lemma_shift_le_widths, lemma_widths_nonneg, widths_sum, phantom_fits, phantom_line_of, phantom_text, InlayHintItem, LinePreview, PhantomConfig};
use crate::fold::FoldingRanges;

verus! {

/// Origin lines are numbered by their index, are well formed, and follow
/// each other in the buffer.
pub open spec fn origin_lines_wf(ols: Seq<OriginLine>) -> bool {
    &&& forall|i: int| 0 <= i < ols.len() ==> (#[trigger] ols[i]).wf() && ols[i].line_index == i
    &&& forall|i: int|
        0 <= i < ols.len() - 1 ==> #[trigger] ols[i + 1].start_offset == #[trigger] ols[i].start_offset
            + ols[i].len
    &&& forall|i: int| 0 <= i < ols.len() ==> #[trigger] ols[i].start_offset + ols[i].len <= usize::MAX
    &&& ols.len() > 0 ==> ols[0].start_offset == 0
}

/// The styles of a fold chain, each line's moved to where the line starts
/// in the merged text.
pub open spec fn chain_styles(ols: Seq<OriginLine>, segs: Seq<crate::phantom_line::LineSegment>, diagnostic: bool) -> Seq<NewLineStyle>
    decreases segs.len(),
{
    if segs.len() == 0 {
        seq![]
    } else {
        let last = segs.last();
        let own = if diagnostic {
            ols[last.line as int].diagnostic_styles@
        } else {
            ols[last.line as int].semantic_styles@
        };
        chain_styles(ols, segs.drop_last(), diagnostic) + shifted_styles(own, last.merge_col)
    }
}

/// A folded line is the fold chain that starts at its first origin line:
/// each chain line's fold placeholder swallows the next chain line, and the
/// last chain line has none.
#[verifier::opaque]
pub open spec fn folded_line_wf(fl: OriginFoldedLine, ols: Seq<OriginLine>) -> bool {
    let segs = fl.phantom_text.segments@;
    &&& fl.phantom_text.wf()
    &&& segs[0].line == fl.origin_line_start
    &&& segs.last().line == fl.origin_line_end
    &&& fl.origin_line_end < ols.len()
    &&& forall|s: int|
        0 <= s < segs.len() ==> {
            &&& (#[trigger] segs[s]).line < ols.len()
            &&& segs[s].offset_of_line == ols[segs[s].line as int].start_offset
            &&& segs[s].len == ols[segs[s].line as int].len
        }
    &&& forall|s: int|
        0 <= s < segs.len() - 1 ==> ols[(#[trigger] segs[s]).line as int].phantom.folded_line_spec()
            == Some(segs[s + 1].line)
    &&& ols[segs.last().line as int].phantom.folded_line_spec() is None
    &&& fl.origin_interval == Interval {
        start: ols[fl.origin_line_start as int].start_offset,
        end: (ols[fl.origin_line_end as int].start_offset + ols[fl.origin_line_end as int].len) as usize,
    }
    &&& fl.semantic_styles@ == chain_styles(ols, segs, false)
    &&& fl.diagnostic_styles@ == chain_styles(ols, segs, true)
}

/// Folded lines cover the origin lines `0..n` in order, without gaps or
/// overlaps, and are numbered by their index.
pub open spec fn folded_partition(fs: Seq<OriginFoldedLine>, n: int) -> bool {
    &&& n == 0 <==> fs.len() == 0
    &&& fs.len() > 0 ==> fs[0].origin_line_start == 0 && fs.last().origin_line_end == n - 1
    &&& forall|i: int|
        0 <= i < fs.len() ==> (#[trigger] fs[i]).line_index == i && fs[i].origin_line_start
            <= fs[i].origin_line_end
    &&& forall|i: int|
        0 <= i < fs.len() - 1 ==> #[trigger] fs[i + 1].origin_line_start == #[trigger] fs[i].origin_line_end
            + 1
}

/// Every origin line lies in exactly one folded line.
pub proof fn lemma_partition(fs: Seq<OriginFoldedLine>, n: int, l: int)
    requires
        folded_partition(fs, n),
        0 <= l < n,
    ensures
        exists|i: int|
            0 <= i < fs.len() && #[trigger] fs[i].origin_line_start <= l <= fs[i].origin_line_end,
        forall|i: int, j: int|
            0 <= i < fs.len() && 0 <= j < fs.len() && (#[trigger] fs[i]).origin_line_start <= l
                <= fs[i].origin_line_end && (#[trigger] fs[j]).origin_line_start <= l
                <= fs[j].origin_line_end ==> i == j,
{
    let i = lemma_partition_find(fs, n, l, 0);
    assert(fs[i].origin_line_start <= l <= fs[i].origin_line_end);
    assert forall|i: int, j: int|
        0 <= i < fs.len() && 0 <= j < fs.len() && (#[trigger] fs[i]).origin_line_start <= l
            <= fs[i].origin_line_end && (#[trigger] fs[j]).origin_line_start <= l
            <= fs[j].origin_line_end implies i == j by {
        if i < j {
            lemma_partition_ordered(fs, n, i, j);
        } else if j < i {
            lemma_partition_ordered(fs, n, j, i);
        }
    }
}

/// Folded lines after `i` start after it ends.
pub proof fn lemma_partition_ordered(fs: Seq<OriginFoldedLine>, n: int, i: int, j: int)
    requires
        folded_partition(fs, n),
        0 <= i < j < fs.len(),
    ensures
        fs[i].origin_line_end < fs[j].origin_line_start,
    decreases j - i,
{
    let u = j - 1;
    assert(fs[u + 1].origin_line_start == fs[u].origin_line_end + 1);
    if i < u {
        lemma_partition_ordered(fs, n, i, u);
    }
}

proof fn lemma_partition_find(fs: Seq<OriginFoldedLine>, n: int, l: int, i: int) -> (r: int)
    requires
        folded_partition(fs, n),
        0 <= i < fs.len(),
        fs[i].origin_line_start <= l < n,
    ensures
        0 <= r < fs.len(),
        fs[r].origin_line_start <= l <= fs[r].origin_line_end,
    decreases fs.len() - i,
{
    if l <= fs[i].origin_line_end {
        i
    } else {
        assert(i + 1 < fs.len());
        assert(fs[i + 1].origin_line_start == fs[i].origin_line_end + 1);
        lemma_partition_find(fs, n, l, i + 1)
    }
}

/// What a line may add to a folded line's merged and shown text: its
/// length, once to each, and the width of its phantoms.
pub open spec fn line_budget(ol: OriginLine) -> int {
    2 * ol.len + widths_sum(ol.phantom.texts@)
}

/// The budget of lines `[a, b)`.
pub open spec fn budget(ols: Seq<OriginLine>, a: int, b: int) -> int
    decreases b - a,
{
    if b <= a || b > ols.len() || a < 0 {
        0
    } else {
        budget(ols, a, b - 1) + line_budget(ols[b - 1])
    }
}

/// The fold chain from origin line `cur` resolves: each fold placeholder
/// names a later line that exists, its end column lies within that line,
/// and that line's own placeholder, if any, starts at or after the end
/// column.
pub open spec fn chain_from(ols: Seq<OriginLine>, cur: int) -> bool
    decreases ols.len() - cur,
{
    if cur < 0 || cur >= ols.len() {
        false
    } else {
        match ols[cur].phantom.line_fold() {
            None => true,
            Some((nx, e)) => cur < nx < ols.len() && e <= ols[nx as int].len && (ols[nx as int].phantom.line_fold()
                is Some ==> ols[nx as int].phantom.texts@.last().col >= e) && chain_from(ols, nx as int),
        }
    }
}

/// The styles of a line start within the line.
pub open spec fn line_styles_within(ol: OriginLine) -> bool {
    &&& forall|k: int| 0 <= k < ol.semantic_styles@.len() ==> (#[trigger] ol.semantic_styles@[k]).origin_line_offset_start <= ol.len
    &&& forall|k: int| 0 <= k < ol.diagnostic_styles@.len() ==> (#[trigger] ol.diagnostic_styles@[k]).origin_line_offset_start <= ol.len
}

/// The styles of each line start within the line.
pub open spec fn styles_within(ols: Seq<OriginLine>) -> bool {
    forall|l: int| 0 <= l < ols.len() ==> line_styles_within(#[trigger] ols[l])
}

/// Every fold chain from `line` on resolves and the merged texts fit.
pub open spec fn chains_resolve_from(ols: Seq<OriginLine>, line: int) -> bool {
    &&& forall|l: int| line <= l < ols.len() ==> chain_from(ols, l)
    &&& budget(ols, line, ols.len() as int) <= usize::MAX
    &&& styles_within(ols)
}

pub proof fn lemma_budget_step(ols: Seq<OriginLine>, a: int, c: int, x: int)
    requires
        0 <= a <= c < x < ols.len(),
    ensures
        budget(ols, a, c + 1) + line_budget(ols[x]) <= budget(ols, a, x + 1),
        budget(ols, a, x + 1) <= budget(ols, a, ols.len() as int),
{
    lemma_budget_mono(ols, a, c + 1, x);
    lemma_budget_mono(ols, a, x + 1, ols.len() as int);
}

pub proof fn lemma_budget_split(ols: Seq<OriginLine>, a: int, m: int, b: int)
    requires
        0 <= a <= m <= b <= ols.len(),
    ensures
        budget(ols, a, b) == budget(ols, a, m) + budget(ols, m, b),
        budget(ols, a, m) >= 0,
    decreases b - m,
{
    lemma_budget_mono(ols, a, a, m);
    if m < b {
        lemma_budget_split(ols, a, m, b - 1);
    }
}

pub proof fn lemma_budget_mono(ols: Seq<OriginLine>, a: int, b: int, c: int)
    requires
        0 <= a <= b <= c <= ols.len(),
    ensures
        budget(ols, a, b) <= budget(ols, a, c),
    decreases c - b,
{
    if b < c {
        lemma_budget_mono(ols, a, b, c - 1);
        lemma_widths_nonneg(ols[c - 1].phantom.texts@);
    }
}

/// The folded lines of `ols`, laid out before shaping: each starts at the
/// first origin line that no earlier folded line covers and follows the
/// fold chain from there.
pub fn fold_origin_lines(ols: &Vec<OriginLine>) -> (r: Result<Vec<OriginFoldedLine>, LayoutError>)
    requires
        origin_lines_wf(ols@),
    ensures
        r matches Ok(fs) ==> {
            &&& folded_partition(fs@, ols@.len() as int)
            &&& forall|i: int| 0 <= i < fs@.len() ==> folded_line_wf(#[trigger] fs@[i], ols@)
            &&& forall|i: int| 0 <= i < fs@.len() ==> (#[trigger] fs@[i]).sub_lines@.len() == 0
        },
        chains_resolve_from(ols@, 0) ==> r is Ok,
        (forall|l: int| 0 <= l < ols@.len() ==> (#[trigger] ols@[l]).phantom.folded_line_spec() is None) ==> (r matches Ok(fs) && fs@.len() == ols@.len() && forall|i: int|
            0 <= i < fs@.len() ==> (#[trigger] fs@[i]).origin_line_start == i && fs@[i].phantom_text.final_text_len
                == final_len(ols@[i].phantom.texts@, ols@[i].len as int)),
{
    let n = ols.len();
    let mut fs: Vec<OriginFoldedLine> = Vec::new();
    let mut line: usize = 0;
    while line < n
        invariant
            n == ols@.len(),
            origin_lines_wf(ols@),
            line <= n,
            line == 0 <==> fs@.len() == 0,
            fs@.len() > 0 ==> fs@[0].origin_line_start == 0 && fs@.last().origin_line_end == line - 1,
            forall|i: int|
                0 <= i < fs@.len() ==> (#[trigger] fs@[i]).line_index == i && fs@[i].origin_line_start
                    <= fs@[i].origin_line_end,
            forall|i: int|
                0 <= i < fs@.len() - 1 ==> #[trigger] fs@[i + 1].origin_line_start
                    == #[trigger] fs@[i].origin_line_end + 1,
            forall|i: int| 0 <= i < fs@.len() ==> folded_line_wf(#[trigger] fs@[i], ols@),
            forall|i: int| 0 <= i < fs@.len() ==> (#[trigger] fs@[i]).sub_lines@.len() == 0,
            (forall|l: int| 0 <= l < ols@.len() ==> (#[trigger] ols@[l]).phantom.folded_line_spec() is None) ==> fs@.len() == line && forall|i: int|
                0 <= i < fs@.len() ==> (#[trigger] fs@[i]).origin_line_start == i && fs@[i].phantom_text.final_text_len
                    == final_len(ols@[i].phantom.texts@, ols@[i].len as int),
        decreases n - line,
    {
        proof {
            if chains_resolve_from(ols@, 0) {
                lemma_budget_split(ols@, 0, line as int, ols@.len() as int);
                assert(chains_resolve_from(ols@, line as int));
            }
        }
        let fl = fold_chain(ols, line, fs.len())?;
        let ghost before = fs@;
        let end = fl.origin_line_end;
        fs.push(fl);
        proof {
            assert forall|i: int| 0 <= i < fs@.len() - 1 implies #[trigger] fs@[i + 1].origin_line_start
                == #[trigger] fs@[i].origin_line_end + 1 by {
                if i < before.len() - 1 {
                    assert(fs@[i + 1] == before[i + 1]);
                }
            }
            if forall|l: int| 0 <= l < ols@.len() ==> (#[trigger] ols@[l]).phantom.folded_line_spec() is None {
                assert(ols@[line as int].phantom.folded_line_spec() is None);
                assert forall|i: int| 0 <= i < fs@.len() implies (#[trigger] fs@[i]).origin_line_start == i && fs@[i].phantom_text.final_text_len
                    == final_len(ols@[i].phantom.texts@, ols@[i].len as int) by {
                    if i < before.len() {
                        assert(fs@[i] == before[i]);
                    }
                }
            }
        }
        line = end + 1;
    }
    Ok(fs)
}

/// The folded line that starts at origin line `line`.
#[verifier::rlimit(50)]
fn fold_chain(ols: &Vec<OriginLine>, line: usize, index: usize) -> (r: Result<OriginFoldedLine, LayoutError>)
    requires
        origin_lines_wf(ols@),
        line < ols@.len(),
    ensures
        r matches Ok(fl) ==> {
            &&& folded_line_wf(fl, ols@)
            &&& fl.line_index == index
            &&& fl.origin_line_start == line
            &&& fl.origin_line_end < ols@.len()
            &&& line <= fl.origin_line_end
            &&& fl.sub_lines@.len() == 0
        },
        ols@[line as int].phantom.folded_line_spec() is None ==> (r matches Ok(fl) && fl.origin_line_end == line
            && fl.phantom_text.final_text_len == final_len(ols@[line as int].phantom.texts@, ols@[line as int].len as int)),
        chains_resolve_from(ols@, line as int) ==> r is Ok,
{
    let n = ols.len();
    let first = &ols[line];
    proof {
        reveal(OriginLine::wf);
        assert(ols@[line as int].wf());
    }
    let mut multi = PhantomTextMultiLine::new(&first.phantom);
    let ghost ok = chains_resolve_from(ols@, line as int);
    proof {
        lemma_shift_le_widths(first.phantom.texts@);
        assert(budget(ols@, line as int, line + 1) == budget(ols@, line as int, line as int) + line_budget(ols@[line as int]));
        assert(styles_shift_fits(first.semantic_styles@, 0));
        assert(styles_shift_fits(first.diagnostic_styles@, 0));
    }
    let mut semantic_styles = first.semantic_styles(0);
    let mut diagnostic_styles = first.diagnostic_styles(0);
    proof {
        let segs = multi.segments@;
        assert(segs.drop_last() =~= seq![]);
        assert(segs.last().line == line && segs.last().merge_col == 0);
        assert(chain_styles(ols@, segs.drop_last(), false) =~= seq![]);
        assert(chain_styles(ols@, segs.drop_last(), true) =~= seq![]);
        assert(chain_styles(ols@, segs, false) =~= shifted_styles(ols@[line as int].semantic_styles@, 0));
        assert(chain_styles(ols@, segs, true) =~= shifted_styles(ols@[line as int].diagnostic_styles@, 0));
    }
    let mut cur = line;
    let mut next_opt = first.phantom.folded_line();
    while next_opt.is_some()
        invariant
            n == ols@.len(),
            origin_lines_wf(ols@),
            line <= cur < n,
            multi.wf(),
            multi.segments@[0].line == line,
            multi.segments@.last().line == cur,
            next_opt == ols@[cur as int].phantom.folded_line_spec(),
            ols@[line as int].phantom.folded_line_spec() is None ==> cur == line && multi.texts@ == ols@[line as int].phantom.texts@
                && multi.origin_text_len == ols@[line as int].len,
            forall|s: int|
                0 <= s < multi.segments@.len() ==> {
                    &&& (#[trigger] multi.segments@[s]).line < ols@.len()
                    &&& multi.segments@[s].offset_of_line == ols@[multi.segments@[s].line as int].start_offset
                    &&& multi.segments@[s].len == ols@[multi.segments@[s].line as int].len
                },
            forall|s: int|
                0 <= s < multi.segments@.len() - 1 ==> ols@[(#[trigger] multi.segments@[s]).line as int].phantom.folded_line_spec()
                    == Some(multi.segments@[s + 1].line),
            semantic_styles@ == chain_styles(ols@, multi.segments@, false),
            diagnostic_styles@ == chain_styles(ols@, multi.segments@, true),
            ok == chains_resolve_from(ols@, line as int),
            ok ==> chain_from(ols@, cur as int),
            ok ==> (next_opt is Some ==> multi.pending_fold() == ols@[cur as int].phantom.line_fold()),
            ok ==> multi.origin_text_len + multi.final_text_len <= budget(ols@, line as int, cur + 1),
        decreases n - cur,
    {
        let next = next_opt.unwrap();
        proof {
            if ok {
                assert(ols@[cur as int].phantom.line_fold() is Some);
            }
        }
        if next <= cur || next >= n {
            return Err(LayoutError::NotFound);
        }
        let next_line = &ols[next];
        proof {
            reveal(OriginLine::wf);
            assert(ols@[next as int].wf());
            if ok {
                lemma_budget_step(ols@, line as int, cur as int, next as int);
                lemma_widths_nonneg(ols@[next as int].phantom.texts@);
            }
        }
        let base = multi.origin_text_len;
        let ghost old_segs = multi.segments@;
        let ghost old_multi = multi;
        multi.merge(&next_line.phantom)?;
        proof {
            if ok {
                let nl = ols@[next as int];
                assert(styles_within(ols@));
                assert(line_styles_within(nl));
                assert(forall|k: int| 0 <= k < nl.semantic_styles@.len() ==> (#[trigger] nl.semantic_styles@[k]).origin_line_offset_start <= nl.len);
                assert(forall|k: int| 0 <= k < nl.diagnostic_styles@.len() ==> (#[trigger] nl.diagnostic_styles@[k]).origin_line_offset_start <= nl.len);
                assert(styles_shift_fits(nl.semantic_styles@, base));
                assert(styles_shift_fits(nl.diagnostic_styles@, base));
            }
        }
        let mut sem = shift_checked(&next_line.semantic_styles, base)?;
        let mut diag = shift_checked(&next_line.diagnostic_styles, base)?;
        semantic_styles.append(&mut sem);
        diagnostic_styles.append(&mut diag);
        proof {
            let segs = multi.segments@;
            assert(segs.drop_last() == old_segs);
            assert(segs.last().line == next);
            assert forall|s: int| 0 <= s < segs.len() - 1 implies ols@[(#[trigger] segs[s]).line as int].phantom.folded_line_spec()
                == Some(segs[s + 1].line) by {
                if s < old_segs.len() - 1 {
                    assert(segs[s] == old_segs[s]);
                    assert(segs[s + 1] == old_segs[s + 1]);
                } else {
                    assert(segs[s] == old_segs.last());
                }
            }
            assert forall|s: int| 0 <= s < segs.len() implies {
                &&& (#[trigger] segs[s]).line < ols@.len()
                &&& segs[s].offset_of_line == ols@[segs[s].line as int].start_offset
                &&& segs[s].len == ols@[segs[s].line as int].len
            } by {
                if s < old_segs.len() {
                    assert(segs[s] == old_segs[s]);
                }
            }
            if ok {
                assert(chain_from(ols@, next as int));
            }
        }
        cur = next;
        next_opt = next_line.phantom.folded_line();
    }
    let last = &ols[cur];
    proof {
        reveal(folded_line_wf);
        assert(ols@[line as int].wf());
        assert(ols@[cur as int].wf());
        if cur > line {
            assert(ols@[line as int].start_offset <= ols@[cur as int].start_offset) by {
                lemma_starts_ordered(ols@, line as int, cur as int);
            }
        }
    }
    Ok(
        OriginFoldedLine {
            line_index: index,
            origin_line_start: line,
            origin_line_end: cur,
            origin_interval: Interval { start: first.start_offset, end: last.start_offset + last.len },
            phantom_text: multi,
            sub_lines: Vec::new(),
            semantic_styles,
            diagnostic_styles,
        },
    )
}

/// Origin lines start in order.
pub proof fn lemma_starts_ordered(ols: Seq<OriginLine>, i: int, j: int)
    requires
        origin_lines_wf(ols),
        0 <= i <= j < ols.len(),
    ensures
        ols[i].start_offset <= ols[j].start_offset,
        i < j ==> ols[i].start_offset + ols[i].len <= ols[j].start_offset,
    decreases j - i,
{
    if i < j {
        let u = j - 1;
        assert(ols[u + 1].start_offset == ols[u].start_offset + ols[u].len);
        lemma_starts_ordered(ols, i, u);
    }
}

/// The styles moved right by `delta`, or `InvalidInterval` when one would
/// leave `usize`.
fn shift_checked(styles: &Vec<NewLineStyle>, delta: usize) -> (r: Result<Vec<NewLineStyle>, LayoutError>)
    ensures
        r matches Ok(v) ==> v@ == shifted_styles(styles@, delta),
        r is Err <==> !styles_shift_fits(styles@, delta),
{
    let mut i: usize = 0;
    while i < styles.len()
        invariant
            i <= styles.len(),
            forall|k: int| 0 <= k < i ==> #[trigger] styles@[k].origin_line_offset_start + delta <= usize::MAX,
        decreases styles.len() - i,
    {
        if styles[i].origin_line_offset_start as u128 + delta as u128 > usize::MAX as u128 {
            return Err(LayoutError::InvalidInterval);
        }
        i = i + 1;
    }
    Ok(crate::style::shift_styles(styles, delta))
}

/// The shaper's sub-lines of a folded line: at least one, and together no
/// wider than the shown text.
pub open spec fn layout_wf(fl: OriginFoldedLine) -> bool {
    &&& fl.sub_lines@.len() > 0
    &&& sub_prefix(fl.sub_lines@, fl.sub_lines@.len() as int) <= fl.phantom_text.final_text_len
}

/// How many visual lines the first `i` folded lines make.
pub open spec fn visual_start(fs: Seq<OriginFoldedLine>, i: int) -> int
    decreases i,
{
    if i <= 0 || i > fs.len() {
        0
    } else {
        visual_start(fs, i - 1) + fs[i - 1].sub_lines@.len()
    }
}

/// Visual line `index`: sub-line `k` of folded line `fi`. Its visual
/// interval is the sub-line's final columns; its origin interval runs
/// between the buffer offsets that the sub-line's bounds map back to.
#[verifier::opaque]
pub open spec fn visual_line_spec(fl: OriginFoldedLine, fi: int, k: int, index: int) -> VisualLine {
    let start = sub_prefix(fl.sub_lines@, k);
    let end = sub_prefix(fl.sub_lines@, k + 1);
    let first_pos = fl.phantom_text.cursor_position_of_final_col_spec(start);
    let end_pos = fl.phantom_text.cursor_position_of_final_col_spec(end);
    VisualLine {
        line_index: index as usize,
        origin_interval: Interval { start: first_pos.2, end: end_pos.2 },
        visual_interval: Interval { start: start as usize, end: end as usize },
        origin_line: first_pos.0,
        origin_folded_line: fi as usize,
        origin_folded_line_sub_index: k as usize,
    }
}

/// The visual lines are the sub-lines of the folded lines, in order.
pub open spec fn visual_lines_wf(fs: Seq<OriginFoldedLine>, vs: Seq<VisualLine>) -> bool {
    &&& vs.len() == visual_start(fs, fs.len() as int)
    &&& forall|i: int, k: int|
        0 <= i < fs.len() && 0 <= k < fs[i].sub_lines@.len() ==> vs[visual_start(fs, i) + k]
            == #[trigger] visual_line_spec(fs[i], i, k, visual_start(fs, i) + k)
}

pub proof fn lemma_visual_start_mono(fs: Seq<OriginFoldedLine>, i: int, j: int)
    requires
        0 <= i <= j <= fs.len(),
    ensures
        visual_start(fs, i) <= visual_start(fs, j),
        i < j ==> visual_start(fs, i) + fs[i].sub_lines@.len() <= visual_start(fs, j),
    decreases j - i,
{
    if i < j {
        lemma_visual_start_mono(fs, i, j - 1);
    }
}

/// All three tiers of lines, each derived from the one before.
pub struct DocLines {
    pub origin_lines: Vec<OriginLine>,
    pub origin_folded_lines: Vec<OriginFoldedLine>,
    pub visual_lines: Vec<VisualLine>,
}

impl DocLines {
    pub open spec fn wf(&self) -> bool {
        let ols = self.origin_lines@;
        let fs = self.origin_folded_lines@;
        &&& origin_lines_wf(ols)
        &&& folded_partition(fs, ols.len() as int)
        &&& forall|i: int| 0 <= i < fs.len() ==> folded_line_wf(#[trigger] fs[i], ols) && layout_wf(fs[i])
            && fs[i].phantom_text.wf()
        &&& visual_lines_wf(fs, self.visual_lines@)
        &&& fs.len() <= usize::MAX
        &&& self.visual_lines@.len() <= usize::MAX
    }


    /// Builds the three tiers from the origin lines and, for each folded
    /// line that `fold_origin_lines` gives, the widths of the sub-lines
    /// that the shaper cut its shown text into. It fails where the fold
    /// chains do not resolve or the layouts do not fit the folded lines
    /// (see `from_folded`); it succeeds at least where no line is folded and
    /// each line has a layout that covers its shown text.
    pub fn new(origin_lines: Vec<OriginLine>, layouts: &Vec<Vec<usize>>) -> (r: Result<DocLines, LayoutError>)
        requires
            origin_lines_wf(origin_lines@),
        ensures
            r matches Ok(d) ==> {
                &&& d.wf()
                &&& d.origin_lines@ == origin_lines@
                &&& d.origin_folded_lines@.len() == layouts@.len()
                &&& forall|i: int|
                    0 <= i < layouts@.len() ==> (#[trigger] d.origin_folded_lines@[i]).sub_lines@ == layout_of(layouts@[i]@)
            },
            ((forall|l: int| 0 <= l < origin_lines@.len() ==> (#[trigger] origin_lines@[l]).phantom.folded_line_spec() is None)
                && layouts@.len() == origin_lines@.len() && forall|i: int|
                0 <= i < layouts@.len() ==> sub_prefix(#[trigger] layouts@[i]@, layouts@[i]@.len() as int)
                    == final_len(origin_lines@[i].phantom.texts@, origin_lines@[i].len as int)) ==> r is Ok,
            chains_resolve_from(origin_lines@, 0) && r is Err ==> r == Err::<DocLines, LayoutError>(LayoutError::ShaperFailure),
    {
        let fs = fold_origin_lines(&origin_lines)?;
        DocLines::from_folded(origin_lines, fs, layouts)
    }

    /// Builds the three tiers from the origin lines, their folded lines,
    /// and for each folded line the widths of the sub-lines that the shaper
    /// cut its shown text into. It fails exactly when there is not one
    /// layout per folded line or a layout's widths do not add up to its
    /// folded line's shown text. An empty layout (of an empty text) stands
    /// for one empty sub-line.
    #[verifier::rlimit(50)]
    pub fn from_folded(origin_lines: Vec<OriginLine>, mut fs: Vec<OriginFoldedLine>, layouts: &Vec<Vec<usize>>) -> (r: Result<DocLines, LayoutError>)
        requires
            origin_lines_wf(origin_lines@),
            folded_partition(fs@, origin_lines@.len() as int),
            forall|j: int| 0 <= j < fs@.len() ==> folded_line_wf(#[trigger] fs@[j], origin_lines@),
        ensures
            r is Err <==> !layouts_fit(fs@, layouts@),
            r is Err ==> r == Err::<DocLines, LayoutError>(LayoutError::ShaperFailure),
            r matches Ok(d) ==> {
                &&& d.wf()
                &&& d.origin_lines@ == origin_lines@
                &&& d.origin_folded_lines@.len() == fs@.len()
                &&& forall|i: int|
                    0 <= i < fs@.len() ==> {
                        &&& (#[trigger] d.origin_folded_lines@[i]).sub_lines@ == layout_of(layouts@[i]@)
                        &&& d.origin_folded_lines@[i] == (OriginFoldedLine {
                            sub_lines: d.origin_folded_lines@[i].sub_lines,
                            ..fs@[i]
                        })
                    }
            },
    {
        if layouts.len() != fs.len() {
            return Err(LayoutError::ShaperFailure);
        }
        if !layouts_fit_exec(&fs, layouts) {
            return Err(LayoutError::ShaperFailure);
        }
        let ghost old_fs = fs@;
        let mut laid: Vec<OriginFoldedLine> = Vec::new();
        let ghost fs0 = fs@;
        let n = fs.len();
        let mut i: usize = 0;
        while i < n
            invariant
                n == fs0.len(),
                fs0 == old_fs,
                layouts_fit(old_fs, layouts@),
                n == layouts@.len(),
                i <= n,
                fs@ == fs0.subrange(i as int, n as int),
                laid@.len() == i,
                folded_partition(fs0, origin_lines@.len() as int),
                forall|j: int| 0 <= j < n ==> folded_line_wf(#[trigger] fs0[j], origin_lines@),
                forall|j: int| 0 <= j < i ==> layout_fits(#[trigger] fs0[j], layouts@[j]@),
                forall|j: int|
                    0 <= j < i ==> {
                        &&& layout_wf(#[trigger] laid@[j])
                        &&& laid@[j] == (OriginFoldedLine { sub_lines: laid@[j].sub_lines, ..fs0[j] })
                        &&& laid@[j].sub_lines@ == layout_of(layouts@[j]@)
                        &&& folded_line_wf(laid@[j], origin_lines@)
                        &&& laid@[j].phantom_text.wf()
                    },
            decreases n - i,
        {
            let mut fl = fs.remove(0);
            proof {
                assert(fl == fs0[i as int]);
                reveal(folded_line_wf);
                assert(folded_line_wf(fs0[i as int], origin_lines@));
            }
            let subs = copy_widths(&layouts[i]);
            let mut total: usize = 0;
            let mut k: usize = 0;
            while k < subs.len()
                invariant
                    k <= subs@.len(),
                    total == sub_prefix(subs@, k as int),
                    total <= fl.phantom_text.final_text_len,
                    i < n,
                    n == layouts@.len(),
                    n == fs0.len(),
                    subs@ == layouts@[i as int]@,
                    fl == fs0[i as int],
                    fs0 == old_fs,
                    layouts_fit(old_fs, layouts@),
                decreases subs.len() - k,
            {
                proof {
                    lemma_sub_prefix_mono(subs@, k + 1, subs@.len() as int);
                    assert(layout_fits(fs0[i as int], layouts@[i as int]@));
                }
                total = total + subs[k];
                k = k + 1;
            }
            proof {
                assert(layout_fits(fs0[i as int], layouts@[i as int]@));
            }
            fl.sub_lines = if subs.len() == 0 {
                vec![0]
            } else {
                subs
            };
            proof {
                if fl.sub_lines@.len() == 1 {
                    assert(sub_prefix(fl.sub_lines@, 1) == sub_prefix(fl.sub_lines@, 0) + fl.sub_lines@[0]);
                }
                reveal(folded_line_wf);
            }
            laid.push(fl);
            i = i + 1;
        }
        proof {
            assert(folded_partition(laid@, origin_lines@.len() as int)) by {
                assert forall|j: int| 0 <= j < laid@.len() - 1 implies #[trigger] laid@[j + 1].origin_line_start
                    == #[trigger] laid@[j].origin_line_end + 1 by {
                    assert(fs0[j + 1].origin_line_start == fs0[j].origin_line_end + 1);
                }
                if laid@.len() > 0 {
                    assert(laid@.last() == laid@[laid@.len() - 1]);
                }
            }
        }
        let visual_lines = build_visual_lines(&laid);
        let r = DocLines { origin_lines, origin_folded_lines: laid, visual_lines };
        proof {
            assert(layouts_fit(old_fs, layouts@));
            assert(r.visual_lines.len() == r.visual_lines@.len());
            assert(r.origin_folded_lines@.len() <= usize::MAX);
            assert(r.wf());
        }
        Ok(r)
    }
}

fn layouts_fit_exec(fs: &Vec<OriginFoldedLine>, layouts: &Vec<Vec<usize>>) -> (r: bool)
    ensures
        r == layouts_fit(fs@, layouts@),
{
    if layouts.len() != fs.len() {
        return false;
    }
    let mut i: usize = 0;
    while i < fs.len()
        invariant
            i <= fs@.len(),
            layouts@.len() == fs@.len(),
            forall|j: int| 0 <= j < i ==> layout_fits(#[trigger] fs@[j], layouts@[j]@),
        decreases fs.len() - i,
    {
        let w = &layouts[i];
        let target = fs[i].phantom_text.final_text_len;
        let mut total: usize = 0;
        let mut k: usize = 0;
        while k < w.len()
            invariant
                k <= w@.len(),
                total == sub_prefix(w@, k as int),
                total <= target,
                i < fs@.len(),
                layouts@.len() == fs@.len(),
                w@ == layouts@[i as int]@,
                target == fs@[i as int].phantom_text.final_text_len,
            decreases w.len() - k,
        {
            if total as u128 + w[k] as u128 > target as u128 {
                proof {
                    lemma_sub_prefix_mono(w@, k + 1, w@.len() as int);
                }
                return false;
            }
            total = total + w[k];
            k = k + 1;
        }
        proof {
            assert(w@.subrange(0, w@.len() as int) =~= w@);
        }
        if total != target {
            return false;
        }
        i = i + 1;
    }
    true
}

/// The sub-lines a layout gives: its widths, or one empty sub-line.
pub open spec fn layout_of(widths: Seq<usize>) -> Seq<usize> {
    if widths.len() == 0 { seq![0usize] } else { widths }
}

/// A layout fits a folded line when its widths add up to the shown text.
pub open spec fn layout_fits(fl: OriginFoldedLine, widths: Seq<usize>) -> bool {
    sub_prefix(widths, widths.len() as int) == fl.phantom_text.final_text_len
}

pub open spec fn layouts_fit(fs: Seq<OriginFoldedLine>, layouts: Seq<Vec<usize>>) -> bool {
    &&& layouts.len() == fs.len()
    &&& forall|i: int| 0 <= i < fs.len() ==> layout_fits(#[trigger] fs[i], layouts[i]@)
}

impl DocLines {
    /// Replaces the layout with one built from `origin_lines` and the
    /// shaper's `layouts`; when that fails the previous layout stays.
    pub fn rebuild(&mut self, origin_lines: Vec<OriginLine>, layouts: &Vec<Vec<usize>>) -> (r: Result<(), LayoutError>)
        requires
            origin_lines_wf(origin_lines@),
        ensures
            r is Ok ==> final(self).wf() && final(self).origin_lines@ == origin_lines@
                && final(self).origin_folded_lines@.len() == layouts@.len()
                && forall|i: int|
                0 <= i < layouts@.len() ==> (#[trigger] final(self).origin_folded_lines@[i]).sub_lines@ == layout_of(layouts@[i]@),
            r is Err ==> *final(self) == *old(self),
            ((forall|l: int| 0 <= l < origin_lines@.len() ==> (#[trigger] origin_lines@[l]).phantom.folded_line_spec() is None)
                && layouts@.len() == origin_lines@.len() && forall|i: int|
                0 <= i < layouts@.len() ==> sub_prefix(#[trigger] layouts@[i]@, layouts@[i]@.len() as int)
                    == final_len(origin_lines@[i].phantom.texts@, origin_lines@[i].len as int)) ==> r is Ok,
            chains_resolve_from(origin_lines@, 0) && r is Err ==> r == Err::<(), LayoutError>(LayoutError::ShaperFailure),
    {
        let d = DocLines::new(origin_lines, layouts)?;
        *self = d;
        Ok(())
    }
}

pub(crate) fn copy_widths(v: &Vec<usize>) -> (r: Vec<usize>)
    ensures
        r@ == v@,
{
    let mut r: Vec<usize> = Vec::new();
    let mut i: usize = 0;
    while i < v.len()
        invariant
            i <= v.len(),
            r@ == v@.subrange(0, i as int),
        decreases v.len() - i,
    {
        r.push(v[i]);
        i = i + 1;
    }
    proof {
        assert(r@ =~= v@);
    }
    r
}

/// Visual line `index`: sub-line `k` of folded line `fi`, which starts
/// at final column `start`.
fn visual_line_at(fl: &OriginFoldedLine, fi: usize, k: usize, start: usize, index: usize) -> (v: VisualLine)
    requires
        fl.phantom_text.wf(),
        layout_wf(*fl),
        k < fl.sub_lines@.len(),
        start == sub_prefix(fl.sub_lines@, k as int),
    ensures
        v == visual_line_spec(*fl, fi as int, k as int, index as int),
        start + fl.sub_lines@[k as int] <= fl.phantom_text.final_text_len,
{
    proof {
        reveal(visual_line_spec);
        lemma_sub_prefix_mono(fl.sub_lines@, k + 1, fl.sub_lines@.len() as int);
    }
    let end = start + fl.sub_lines[k];
    let first_pos = fl.phantom_text.cursor_position_of_final_col(start);
    let end_pos = fl.phantom_text.cursor_position_of_final_col(end);
    VisualLine {
        line_index: index,
        origin_interval: Interval { start: first_pos.2, end: end_pos.2 },
        visual_interval: Interval { start, end },
        origin_line: first_pos.0,
        origin_folded_line: fi,
        origin_folded_line_sub_index: k,
    }
}

/// Appends the visual lines of folded line `fi`.
#[verifier::rlimit(100)]
fn push_sub_lines(vs: &mut Vec<VisualLine>, fl: &OriginFoldedLine, fi: usize)
    requires
        fl.phantom_text.wf(),
        layout_wf(*fl),
    ensures
        final(vs)@.len() == old(vs)@.len() + fl.sub_lines@.len(),
        final(vs)@.subrange(0, old(vs)@.len() as int) == old(vs)@,
        forall|kk: int|
            0 <= kk < fl.sub_lines@.len() ==> final(vs)@[old(vs)@.len() + kk] == #[trigger] visual_line_spec(
                *fl,
                fi as int,
                kk,
                old(vs)@.len() + kk,
            ),
{
    let ghost base = vs@.len();
    let mut start: usize = 0;
    let mut k: usize = 0;
    while k < fl.sub_lines.len()
        invariant
            fl.phantom_text.wf(),
            layout_wf(*fl),
            k <= fl.sub_lines@.len(),
            base == old(vs)@.len(),
            vs@.len() == base + k,
            vs@.subrange(0, base as int) == old(vs)@,
            start == sub_prefix(fl.sub_lines@, k as int),
            forall|kk: int|
                0 <= kk < k ==> vs@[base + kk] == #[trigger] visual_line_spec(*fl, fi as int, kk, base + kk),
        decreases fl.sub_lines.len() - k,
    {
        let v = visual_line_at(fl, fi, k, start, vs.len());
        let end = start + fl.sub_lines[k];
        let ghost before = vs@;
        vs.push(v);
        proof {
            assert(vs@.subrange(0, base as int) =~= before.subrange(0, base as int));
            assert forall|kk: int| 0 <= kk < k + 1 implies vs@[base + kk] == #[trigger] visual_line_spec(*fl, fi as int, kk, base + kk) by {
                if kk < k {
                    assert(vs@[base + kk] == before[base + kk]);
                }
            }
        }
        start = end;
        k = k + 1;
    }
}

/// One visual line for each sub-line of each folded line, in order.
#[verifier::rlimit(100)]
pub fn build_visual_lines(fs: &Vec<OriginFoldedLine>) -> (vs: Vec<VisualLine>)
    requires
        forall|i: int| 0 <= i < fs@.len() ==> (#[trigger] fs@[i]).phantom_text.wf() && layout_wf(fs@[i]),
    ensures
        visual_lines_wf(fs@, vs@),
{
    let mut vs: Vec<VisualLine> = Vec::new();
    let mut i: usize = 0;
    while i < fs.len()
        invariant
            i <= fs@.len(),
            forall|j: int| 0 <= j < fs@.len() ==> (#[trigger] fs@[j]).phantom_text.wf() && layout_wf(fs@[j]),
            vs@.len() == visual_start(fs@, i as int),
            forall|j: int, k: int|
                0 <= j < i && 0 <= k < fs@[j].sub_lines@.len() ==> vs@[visual_start(fs@, j) + k]
                    == #[trigger] visual_line_spec(fs@[j], j, k, visual_start(fs@, j) + k),
        decreases fs.len() - i,
    {
        let ghost before = vs@;
        proof {
            assert(fs@[i as int].phantom_text.wf() && layout_wf(fs@[i as int]));
        }
        push_sub_lines(&mut vs, &fs[i], i);
        proof {
            let base = before.len() as int;
            assert forall|j: int, kk: int|
                0 <= j < i + 1 && 0 <= kk < fs@[j].sub_lines@.len() implies vs@[visual_start(fs@, j) + kk]
                    == #[trigger] visual_line_spec(fs@[j], j, kk, visual_start(fs@, j) + kk) by {
                if j < i {
                    lemma_visual_start_mono(fs@, j, i as int);
                    lemma_visual_start_mono(fs@, 0, j);
                    assert(vs@.subrange(0, base)[visual_start(fs@, j) + kk] == before[visual_start(fs@, j) + kk]);
                }
            }
        }
        proof {
            assert(visual_start(fs@, i + 1) == visual_start(fs@, i as int) + fs@[i as int].sub_lines@.len());
        }
        i = i + 1;
    }
    vs
}

/// The buffer offset where line `i` starts, for lines of lengths `lens`.
pub open spec fn line_start(lens: Seq<usize>, i: int) -> int
    decreases i,
{
    if i <= 0 || i > lens.len() {
        0
    } else {
        line_start(lens, i - 1) + lens[i - 1]
    }
}

/// Origin line `line` at `[start_offset, start_offset + len)`, built from
/// the sources: its phantoms as `phantom_text` gives them, and its styles
/// projected from the active semantic provider and, when shown, the
/// diagnostics.
#[verifier::opaque]
pub open spec fn origin_line_of(ol: OriginLine, line: usize, start_offset: usize, len: usize, src: LineSources) -> bool {
    &&& ol.wf()
    &&& ol.line_index == line
    &&& ol.start_offset == start_offset
    &&& ol.len == len
    &&& start_offset + len <= usize::MAX
    &&& phantom_line_of(
        ol.phantom,
        line,
        start_offset,
        len,
        src.config,
        src.hints@,
        src.completion_lens,
        src.inline_completion,
        src.preedit,
        src.folding,
    )
    &&& ol.semantic_styles@ == semantic_styles_spec(line, start_offset, (start_offset + len) as usize, src.semantic_spans())
    &&& ol.diagnostic_styles@ == if src.enable_error_lens {
        diagnostic_styles_spec(line, start_offset, (start_offset + len) as usize, src.severity_cutoff, src.diagnostics@)
    } else {
        Seq::<NewLineStyle>::empty()
    }
}

/// The line's offsets and shown text fit in `usize`.
pub open spec fn line_fits(line: usize, start_offset: usize, len: usize, src: LineSources) -> bool {
    phantom_fits(
        line,
        start_offset,
        len,
        src.config,
        src.hints@,
        src.completion_lens,
        src.inline_completion,
        src.preedit,
        src.folding,
    )
}

/// What the origin lines are built from, besides the line lengths.
pub struct LineSources {
    pub config: PhantomConfig,
    pub hints: Vec<InlayHintItem>,
    pub completion_lens: Option<LinePreview>,
    pub inline_completion: Option<LinePreview>,
    pub preedit: Option<LinePreview>,
    pub folding: FoldingRanges,
    pub style_source: StyleSource,
    pub syntax_styles: Vec<StyleSpan>,
    pub lsp_styles: Vec<StyleSpan>,
    pub diagnostics: Vec<DiagnosticSpan>,
    /// Whether diagnostics are shown on their lines.
    pub enable_error_lens: bool,
    /// The least severe diagnostic severity that is shown.
    pub severity_cutoff: u8,
}

impl LineSources {
    pub open spec fn semantic_spans(&self) -> Seq<StyleSpan> {
        match self.style_source {
            StyleSource::Syntax => self.syntax_styles@,
            StyleSource::Lsp => self.lsp_styles@,
        }
    }
}

/// Origin line `line` of a buffer whose lines have lengths `lens`: its
/// phantoms and its styles, projected from the sources.
pub fn init_origin_line(line: usize, start_offset: usize, len: usize, src: &LineSources) -> (r: Result<OriginLine, LayoutError>)
    ensures
        r matches Ok(ol) ==> origin_line_of(ol, line, start_offset, len, *src),
        line_fits(line, start_offset, len, *src) ==> r is Ok,
{
    if start_offset as u128 + len as u128 > usize::MAX as u128 {
        return Err(LayoutError::InvalidInterval);
    }
    let phantom = phantom_text(
        line,
        start_offset,
        len,
        &src.config,
        &src.hints,
        &src.completion_lens,
        &src.inline_completion,
        &src.preedit,
        &src.folding,
    );
    let phantom = match phantom {
        Ok(p) => p,
        Err(_) => {
            return Err(LayoutError::InvalidInterval);
        },
    };
    let end = start_offset + len;
    let semantic_styles = line_semantic_styles_from(src.style_source, line, start_offset, end, &src.syntax_styles, &src.lsp_styles);
    let diagnostic_styles = if src.enable_error_lens {
        line_diagnostic_styles(line, start_offset, end, src.severity_cutoff, &src.diagnostics)
    } else {
        Vec::new()
    };
    let r = OriginLine { line_index: line, start_offset, len, phantom, semantic_styles, diagnostic_styles };
    proof {
        reveal(OriginLine::wf);
        reveal(origin_line_of);
    }
    Ok(r)
}

/// The origin lines of a buffer whose lines have lengths `lens` (line
/// endings included), laid end to end from offset 0.
#[verifier::rlimit(50)]
pub fn build_origin_lines(lens: &Vec<usize>, src: &LineSources) -> (r: Result<Vec<OriginLine>, LayoutError>)
    ensures
        r matches Ok(ols) ==> {
            &&& origin_lines_wf(ols@)
            &&& ols@.len() == lens@.len()
            &&& forall|i: int| 0 <= i < lens@.len() ==> {
                &&& (#[trigger] ols@[i]).len == lens@[i]
                &&& ols@[i].start_offset == line_start(lens@, i)
                &&& origin_line_of(ols@[i], i as usize, line_start(lens@, i) as usize, lens@[i], *src)
            }
        },
        (forall|i: int| 0 <= i < lens@.len() ==> line_fits(i as usize, line_start(lens@, i) as usize, #[trigger] lens@[i], *src))
            ==> r is Ok,
        r matches Ok(ols) ==> styles_within(ols@),
{
    let mut ols: Vec<OriginLine> = Vec::new();
    let mut start: usize = 0;
    let mut i: usize = 0;
    while i < lens.len()
        invariant
            i <= lens@.len(),
            ols@.len() == i,
            start == line_start(lens@, i as int),
            forall|k: int| 0 <= k < i ==> {
                &&& (#[trigger] ols@[k]).len == lens@[k]
                &&& ols@[k].start_offset == line_start(lens@, k)
                &&& ols@[k].wf()
                &&& ols@[k].line_index == k
                &&& ols@[k].start_offset + ols@[k].len <= usize::MAX
                &&& origin_line_of(ols@[k], k as usize, line_start(lens@, k) as usize, lens@[k], *src)
                &&& line_styles_within(ols@[k])
            },
        decreases lens.len() - i,
    {
        let ol = match init_origin_line(i, start, lens[i], src) {
            Ok(ol) => ol,
            Err(e) => {
                return Err(e);
            },
        };
        proof {
            reveal(origin_line_of);
            assert(ol.wf() && ol.line_index == i && ol.len == lens@[i as int] && start + lens@[i as int] <= usize::MAX);
            lemma_semantic_within(i, start, (start + lens@[i as int]) as usize, src.semantic_spans());
            lemma_diagnostic_within(i, start, (start + lens@[i as int]) as usize, src.severity_cutoff, src.diagnostics@);
            assert(line_styles_within(ol));
        }
        let ghost before = ols@;
        ols.push(ol);
        proof {
            assert forall|k: int| 0 <= k < i + 1 implies {
                &&& (#[trigger] ols@[k]).len == lens@[k]
                &&& ols@[k].start_offset == line_start(lens@, k)
                &&& ols@[k].wf()
                &&& ols@[k].line_index == k
                &&& ols@[k].start_offset + ols@[k].len <= usize::MAX
                &&& origin_line_of(ols@[k], k as usize, line_start(lens@, k) as usize, lens@[k], *src)
                &&& line_styles_within(ols@[k])
            } by {
                if k < i {
                    assert(ols@[k] == before[k]);
                }
            }
        }
        start = start + lens[i];
        i = i + 1;
    }
    proof {
        assert forall|k: int| 0 <= k < ols@.len() - 1 implies #[trigger] ols@[k + 1].start_offset == #[trigger] ols@[k].start_offset + ols@[k].len by {
            assert(line_start(lens@, k + 1) == line_start(lens@, k) + lens@[k]);
        }
    }
    Ok(ols)
}

/// Within a folded line the visual lines follow each other: the first
/// starts at column 0, each ends where the next starts, none runs
/// backwards, and the last ends where the shaped text ends.
#[verifier::rlimit(60)]
pub proof fn lemma_visual_intervals_contiguous(d: DocLines, i: int)
    requires
        d.wf(),
        0 <= i < d.origin_folded_lines@.len(),
    ensures
        ({
            let fs = d.origin_folded_lines@;
            let vs = d.visual_lines@;
            let base = visual_start(fs, i);
            let n = fs[i].sub_lines@.len() as int;
            &&& vs[base].visual_interval.start == 0
            &&& forall|k: int|
                0 <= k < n - 1 ==> #[trigger] vs[base + k].visual_interval.end == vs[base + k
                    + 1].visual_interval.start
            &&& forall|k: int|
                0 <= k < n ==> #[trigger] vs[base + k].visual_interval.start <= vs[base
                    + k].visual_interval.end
            &&& vs[base + n - 1].visual_interval.end == sub_prefix(fs[i].sub_lines@, n)
        }),
{
    reveal(visual_line_spec);
    let fs = d.origin_folded_lines@;
    let vs = d.visual_lines@;
    let base = visual_start(fs, i);
    let subs = fs[i].sub_lines@;
    let n = subs.len() as int;
    assert(layout_wf(fs[i]));
    assert forall|k: int| 0 <= k <= n implies 0 <= #[trigger] sub_prefix(subs, k) <= fs[i].phantom_text.final_text_len by {
        lemma_sub_prefix_mono(subs, 0, k);
        lemma_sub_prefix_mono(subs, k, n);
    }
    assert(vs[base + 0] == visual_line_spec(fs[i], i, 0, base + 0));
    assert forall|k: int| 0 <= k < n - 1 implies #[trigger] vs[base + k].visual_interval.end == vs[base + k
        + 1].visual_interval.start by {
        assert(vs[base + k] == visual_line_spec(fs[i], i, k, base + k));
        assert(vs[base + (k + 1)] == visual_line_spec(fs[i], i, k + 1, base + (k + 1)));
    }
    assert forall|k: int| 0 <= k < n implies #[trigger] vs[base + k].visual_interval.start <= vs[base
        + k].visual_interval.end by {
        assert(vs[base + k] == visual_line_spec(fs[i], i, k, base + k));
        assert(sub_prefix(subs, k + 1) == sub_prefix(subs, k) + subs[k]);
    }
    assert(vs[base + (n - 1)] == visual_line_spec(fs[i], i, n - 1, base + (n - 1)));
}

} // verus!

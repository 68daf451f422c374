//! Virtual text laid over a line, and the column maps it induces.
//!
//! Columns are byte columns. An origin column counts bytes of the buffer
//! text; a final column counts bytes of the text that is shown, where each
//! phantom inserts its text at its column and replaces the `hide_len` origin
//! bytes that follow (a fold placeholder hides the folded text).
use vstd::prelude::*;
use vstd::utf8::encode_utf8;
use crate::style::Offset;

verus! {

/// Which side of a boundary a caret leans to.
#[derive(Clone, Copy, Debug, PartialEq, Eq, Structural, Hash)]
pub enum CursorAffinity {
    Forward,
    Backward,
}

/// Where a phantom comes from.
#[derive(Clone, Copy, Debug, PartialEq, Eq, Structural, Hash)]
pub enum PhantomTextKind {
    InlayHint,
    Completion,
    Preedit,
    Diagnostic,
    /// The placeholder of a collapsed range that starts on this line at
    /// (`start_line`, `start_col`) and ends on `next_line` at `end_col`; the
    /// end line is swallowed into this one.
    LineFoldedRang { next_line: usize, end_col: usize, start_line: usize, start_col: usize },
}

/// One virtual insertion.
#[derive(Debug)]
pub struct PhantomText {
    pub kind: PhantomTextKind,
    /// The origin line it is anchored on.
    pub line: usize,
    /// Its column in that origin line.
    pub col: usize,
    /// Its column in the merged origin text of the folded line.
    pub merge_col: usize,
    /// Its column in the final (shown) text.
    pub final_col: usize,
    /// How many origin bytes after `col` it replaces.
    pub hide_len: usize,
    pub text: String,
    pub affinity: Option<CursorAffinity>,
}

impl PhantomText {
    pub fn duplicate(&self) -> (r: PhantomText)
        ensures
            r == *self,
    {
        PhantomText {
            kind: self.kind,
            line: self.line,
            col: self.col,
            merge_col: self.merge_col,
            final_col: self.final_col,
            hide_len: self.hide_len,
            text: self.text.clone(),
            affinity: self.affinity,
        }
    }

    pub open spec fn is_fold(&self) -> bool {
        self.kind is LineFoldedRang
    }

    pub open spec fn can_adjust_lines(&self, line_offset: Offset) -> bool {
        &&& line_offset.fits(self.line)
        &&& match self.kind {
            PhantomTextKind::LineFoldedRang { next_line, start_line, .. } => line_offset.fits(next_line)
                && line_offset.fits(start_line),
            _ => true,
        }
    }

    pub open spec fn lines_adjusted(&self, line_offset: Offset) -> PhantomText {
        PhantomText {
            line: line_offset.apply(self.line),
            kind: match self.kind {
                PhantomTextKind::LineFoldedRang { next_line, end_col, start_line, start_col } =>
                    PhantomTextKind::LineFoldedRang {
                    next_line: line_offset.apply(next_line),
                    end_col,
                    start_line: line_offset.apply(start_line),
                    start_col,
                },
                k => k,
            },
            ..*self
        }
    }

    /// Moves the line numbers it refers to by `line_offset`.
    pub fn adjust_lines(&mut self, line_offset: Offset)
        requires
            old(self).can_adjust_lines(line_offset),
        ensures
            *final(self) == old(self).lines_adjusted(line_offset),
    {
        line_offset.adjust(&mut self.line);
        match self.kind {
            PhantomTextKind::LineFoldedRang { next_line, end_col, start_line, start_col } => {
                self.kind = PhantomTextKind::LineFoldedRang {
                    next_line: line_offset.adjusted(next_line),
                    end_col,
                    start_line: line_offset.adjusted(start_line),
                    start_col,
                };
            },
            _ => {},
        }
    }
}

impl Clone for PhantomText {
    fn clone(&self) -> (r: PhantomText)
        ensures
            r == *self,
    {
        self.duplicate()
    }
}

/// The number of final columns the phantom's text takes.
pub open spec fn width(p: PhantomText) -> int {
    encode_utf8(p.text@).len() as usize as int
}

/// The merged origin column just past the text the phantom hides.
pub open spec fn hide_end(p: PhantomText) -> int {
    p.merge_col + p.hide_len
}

/// How far the first `k` phantoms move the text after them.
pub open spec fn shift_prefix(ps: Seq<PhantomText>, k: int) -> int
    decreases k,
{
    if k <= 0 || k > ps.len() {
        0
    } else {
        shift_prefix(ps, k - 1) + width(ps[k - 1]) - ps[k - 1].hide_len
    }
}

/// The length of the shown text for an origin text of `origin_len` bytes.
pub open spec fn final_len(ps: Seq<PhantomText>, origin_len: int) -> int {
    origin_len + shift_prefix(ps, ps.len() as int)
}

/// The phantoms are ordered, do not overlap, show some text, lie within
/// the origin text, and carry their final columns.
pub open spec fn phantoms_wf(ps: Seq<PhantomText>, origin_len: int) -> bool {
    &&& forall|j: int|
        0 <= j < ps.len() ==> {
            &&& width(#[trigger] ps[j]) > 0
            &&& hide_end(ps[j]) <= origin_len
            &&& ps[j].final_col == ps[j].merge_col + shift_prefix(ps, j)
        }
    &&& forall|i: int, j: int| 0 <= i < j < ps.len() ==> hide_end(#[trigger] ps[i]) <= #[trigger] ps[j].merge_col
    &&& 0 <= origin_len
    &&& final_len(ps, origin_len) <= usize::MAX
}

/// Extending the sequence leaves the shift of a prefix as it was.
pub proof fn lemma_shift_prefix_push(ps: Seq<PhantomText>, p: PhantomText, k: int)
    requires
        0 <= k <= ps.len(),
    ensures
        shift_prefix(ps.push(p), k) == shift_prefix(ps, k),
    decreases k,
{
    if k > 0 {
        lemma_shift_prefix_push(ps, p, k - 1);
        assert(ps.push(p)[k - 1] == ps[k - 1]);
    }
}

/// The shift of a prefix depends on the widths and hidden lengths alone.
pub proof fn lemma_shift_prefix_same(a: Seq<PhantomText>, b: Seq<PhantomText>, k: int)
    requires
        0 <= k <= a.len(),
        a.len() == b.len(),
        forall|j: int| 0 <= j < a.len() ==> width(#[trigger] a[j]) == width(b[j]) && a[j].hide_len == b[j].hide_len,
    ensures
        shift_prefix(a, k) == shift_prefix(b, k),
    decreases k,
{
    if k > 0 {
        lemma_shift_prefix_same(a, b, k - 1);
    }
}

/// Changing the last phantom leaves the shift before it as it was.
pub proof fn lemma_shift_prefix_update_last(ps: Seq<PhantomText>, p: PhantomText, k: int)
    requires
        0 <= k < ps.len(),
    ensures
        shift_prefix(ps.update(ps.len() - 1, p), k) == shift_prefix(ps, k),
    decreases k,
{
    if k > 0 {
        lemma_shift_prefix_update_last(ps, p, k - 1);
    }
}

/// The first index at or after `i` whose phantom does not end at or before
/// origin column `m`.
pub open spec fn first_not_before(ps: Seq<PhantomText>, m: int, i: int) -> int
    decreases ps.len() - i,
{
    if i < 0 || i >= ps.len() || hide_end(ps[i]) > m {
        i
    } else {
        first_not_before(ps, m, i + 1)
    }
}

/// The first index at or after `i` whose phantom text does not end at or
/// before final column `f`.
pub open spec fn first_not_before_final(ps: Seq<PhantomText>, f: int, i: int) -> int
    decreases ps.len() - i,
{
    if i < 0 || i >= ps.len() || ps[i].final_col + width(ps[i]) > f {
        i
    } else {
        first_not_before_final(ps, f, i + 1)
    }
}

/// Origin column `m` lies strictly inside a hidden span.
pub open spec fn hidden_inside(ps: Seq<PhantomText>, m: int) -> bool {
    exists|j: int| 0 <= j < ps.len() && #[trigger] ps[j].merge_col < m && m < hide_end(ps[j])
}

/// The final column of origin column `m`: `m` moved by every phantom that
/// ends at or before it.
pub open spec fn col_at_spec(ps: Seq<PhantomText>, m: int) -> int {
    m + shift_prefix(ps, first_not_before(ps, m, 0))
}

/// The final column of origin column `m`; a column inside a hidden span
/// goes to the start of the placeholder that hides it.
pub open spec fn final_col_spec(ps: Seq<PhantomText>, m: int) -> int {
    let k = first_not_before(ps, m, 0);
    if k < ps.len() && ps[k].merge_col < m {
        ps[k].final_col as int
    } else {
        col_at_spec(ps, m)
    }
}

/// The origin column of final column `f`: inside a phantom's text, the
/// phantom's own column; elsewhere, `f` moved back by the phantoms before.
pub open spec fn origin_col_spec(ps: Seq<PhantomText>, f: int) -> int {
    let k = first_not_before_final(ps, f, 0);
    if k < ps.len() && ps[k].final_col <= f {
        ps[k].merge_col as int
    } else {
        f - shift_prefix(ps, k)
    }
}

/// The index of the phantom whose text holds final column `f`, if any.
pub open spec fn phantom_at_final_spec(ps: Seq<PhantomText>, f: int) -> Option<int> {
    let k = first_not_before_final(ps, f, 0);
    if k < ps.len() && ps[k].final_col <= f {
        Some(k)
    } else {
        None
    }
}

pub proof fn lemma_first_not_before(ps: Seq<PhantomText>, m: int, i: int)
    requires
        0 <= i <= ps.len(),
    ensures
        i <= first_not_before(ps, m, i) <= ps.len(),
        forall|k: int| i <= k < first_not_before(ps, m, i) ==> hide_end(#[trigger] ps[k]) <= m,
        first_not_before(ps, m, i) < ps.len() ==> hide_end(ps[first_not_before(ps, m, i)]) > m,
    decreases ps.len() - i,
{
    if i < ps.len() && hide_end(ps[i]) <= m {
        lemma_first_not_before(ps, m, i + 1);
    }
}

pub proof fn lemma_first_not_before_final(ps: Seq<PhantomText>, f: int, i: int)
    requires
        0 <= i <= ps.len(),
    ensures
        i <= first_not_before_final(ps, f, i) <= ps.len(),
        forall|k: int|
            i <= k < first_not_before_final(ps, f, i) ==> #[trigger] ps[k].final_col + width(ps[k]) <= f,
        first_not_before_final(ps, f, i) < ps.len() ==> ps[first_not_before_final(ps, f, i)].final_col
            + width(ps[first_not_before_final(ps, f, i)]) > f,
    decreases ps.len() - i,
{
    if i < ps.len() && ps[i].final_col + width(ps[i]) <= f {
        lemma_first_not_before_final(ps, f, i + 1);
    }
}

/// A first failing index is the one where the scan stops.
pub proof fn lemma_first_not_before_final_is(ps: Seq<PhantomText>, f: int, i: int, k: int)
    requires
        0 <= i <= k <= ps.len(),
        forall|j: int| i <= j < k ==> #[trigger] ps[j].final_col + width(ps[j]) <= f,
        k < ps.len() ==> ps[k].final_col + width(ps[k]) > f,
    ensures
        first_not_before_final(ps, f, i) == k,
    decreases k - i,
{
    if i < k {
        lemma_first_not_before_final_is(ps, f, i + 1, k);
    }
}

/// The end of a phantom's text, in final columns, is where the origin text
/// after its hidden span starts.
pub proof fn lemma_phantom_end(ps: Seq<PhantomText>, origin_len: int, j: int)
    requires
        phantoms_wf(ps, origin_len),
        0 <= j < ps.len(),
    ensures
        ps[j].final_col + width(ps[j]) == hide_end(ps[j]) + shift_prefix(ps, j + 1),
{
}

/// Phantom texts follow each other in final columns.
pub proof fn lemma_final_ordered(ps: Seq<PhantomText>, origin_len: int, i: int, j: int)
    requires
        phantoms_wf(ps, origin_len),
        0 <= i < j < ps.len(),
    ensures
        ps[i].final_col + width(ps[i]) <= ps[j].final_col,
    decreases j - i,
{
    lemma_phantom_end(ps, origin_len, j - 1);
    assert(hide_end(ps[j - 1]) <= ps[j].merge_col);
    if i < j - 1 {
        lemma_final_ordered(ps, origin_len, i, j - 1);
    }
}

/// Every phantom text ends within the final text.
pub proof fn lemma_final_bounded(ps: Seq<PhantomText>, origin_len: int, j: int)
    requires
        phantoms_wf(ps, origin_len),
        0 <= j < ps.len(),
    ensures
        ps[j].final_col + width(ps[j]) <= final_len(ps, origin_len),
    decreases ps.len() - j,
{
    let n = ps.len() as int;
    lemma_phantom_end(ps, origin_len, j);
    if j < n - 1 {
        lemma_final_ordered(ps, origin_len, j, j + 1);
        lemma_final_bounded(ps, origin_len, j + 1);
    }
}

/// Where column `m` maps and how it sits between the phantoms.
pub proof fn lemma_col_at_bounds(ps: Seq<PhantomText>, origin_len: int, m: int)
    requires
        phantoms_wf(ps, origin_len),
        0 <= m <= origin_len,
    ensures
        ({
            let k = first_not_before(ps, m, 0);
            &&& !hidden_inside(ps, m) ==> 0 <= col_at_spec(ps, m) <= final_len(ps, origin_len)
            &&& k > 0 ==> ps[k - 1].final_col + width(ps[k - 1]) <= col_at_spec(ps, m)
            &&& k < ps.len() && ps[k].merge_col >= m ==> col_at_spec(ps, m) <= ps[k].final_col
            &&& !hidden_inside(ps, m) && k < ps.len() ==> ps[k].merge_col >= m
        }),
{
    let k = first_not_before(ps, m, 0);
    lemma_first_not_before(ps, m, 0);
    if k > 0 {
        lemma_phantom_end(ps, origin_len, k - 1);
    }
    if k < ps.len() {
        if !hidden_inside(ps, m) {
            if ps[k].merge_col < m {
                assert(ps[k].merge_col < m && m < hide_end(ps[k]));
            }
        }
        if ps[k].merge_col >= m {
            lemma_final_bounded(ps, origin_len, k);
        }
    }
    if k < ps.len() && ps[k].merge_col < m {
        lemma_final_bounded(ps, origin_len, k);
        assert(col_at_spec(ps, m) == m + shift_prefix(ps, k));
        assert(ps[k].final_col == ps[k].merge_col + shift_prefix(ps, k));
        lemma_phantom_end(ps, origin_len, k);
        assert(m + shift_prefix(ps, k) <= hide_end(ps[k]) + shift_prefix(ps, k));
    }
    if k == ps.len() && k > 0 {
        lemma_phantom_end(ps, origin_len, k - 1);
    }
}

/// Round trip: an origin column that is not strictly inside a hidden span
/// comes back from its final column.
pub proof fn lemma_round_trip(ps: Seq<PhantomText>, origin_len: int, m: int)
    requires
        phantoms_wf(ps, origin_len),
        0 <= m <= origin_len,
        !hidden_inside(ps, m),
    ensures
        origin_col_spec(ps, col_at_spec(ps, m)) == m,
{
    let k = first_not_before(ps, m, 0);
    let f = col_at_spec(ps, m);
    lemma_first_not_before(ps, m, 0);
    lemma_col_at_bounds(ps, origin_len, m);
    assert forall|j: int| 0 <= j < k implies #[trigger] ps[j].final_col + width(ps[j]) <= f by {
        if j < k - 1 {
            lemma_final_ordered(ps, origin_len, j, k - 1);
        }
    }
    if k < ps.len() {
        assert(ps[k].merge_col >= m);
        assert(ps[k].final_col + width(ps[k]) > f);
    }
    lemma_first_not_before_final_is(ps, f, 0, k);
}

/// Where final column `f` maps back to.
pub proof fn lemma_origin_col_bounds(ps: Seq<PhantomText>, origin_len: int, f: int)
    requires
        phantoms_wf(ps, origin_len),
        0 <= f <= final_len(ps, origin_len),
    ensures
        0 <= origin_col_spec(ps, f) <= origin_len,
{
    let k = first_not_before_final(ps, f, 0);
    lemma_first_not_before_final(ps, f, 0);
    if k > 0 {
        lemma_phantom_end(ps, origin_len, k - 1);
    }
    if k < ps.len() {
        lemma_phantom_end(ps, origin_len, k);
    }
}

/// The width of a phantom's text, in bytes.
pub fn text_width(p: &PhantomText) -> (r: usize)
    ensures
        r == width(*p),
{
    p.text.as_str().len()
}

/// The final column of merged origin column `m`, or `None` when `m` lies
/// strictly inside a hidden span.
pub fn col_at_of(ps: &Vec<PhantomText>, origin_len: usize, m: usize) -> (r: Option<usize>)
    requires
        phantoms_wf(ps@, origin_len as int),
        m <= origin_len,
    ensures
        r == (if hidden_inside(ps@, m as int) {
            None
        } else {
            Some(col_at_spec(ps@, m as int) as usize)
        }),
{
    let k = first_not_before_of(ps, m);
    proof {
        lemma_col_at_bounds(ps@, origin_len as int, m as int);
        lemma_first_not_before(ps@, m as int, 0);
    }
    if k < ps.len() && ps[k].merge_col < m {
        proof {
            assert(ps@[k as int].merge_col < m && m < hide_end(ps@[k as int]));
        }
        None
    } else {
        proof {
            if hidden_inside(ps@, m as int) {
                let j = choose|j: int| 0 <= j < ps@.len() && #[trigger] ps@[j].merge_col < m && m < hide_end(ps@[j]);
                if j < k {
                } else if j > k {
                    assert(hide_end(ps@[k as int]) <= ps@[j].merge_col);
                }
            }
        }
        Some(col_at_at(ps, origin_len, m, k))
    }
}

/// The final column of merged origin column `m`; inside a hidden span, the
/// start of its placeholder.
pub fn final_col_of(ps: &Vec<PhantomText>, origin_len: usize, m: usize) -> (r: usize)
    requires
        phantoms_wf(ps@, origin_len as int),
        m <= origin_len,
    ensures
        r == final_col_spec(ps@, m as int),
        r <= final_len(ps@, origin_len as int),
{
    let k = first_not_before_of(ps, m);
    proof {
        lemma_col_at_bounds(ps@, origin_len as int, m as int);
        lemma_first_not_before(ps@, m as int, 0);
    }
    if k < ps.len() && ps[k].merge_col < m {
        proof {
            lemma_final_bounded(ps@, origin_len as int, k as int);
        }
        ps[k].final_col
    } else {
        col_at_at(ps, origin_len, m, k)
    }
}

fn first_not_before_of(ps: &Vec<PhantomText>, m: usize) -> (k: usize)
    ensures
        k == first_not_before(ps@, m as int, 0),
{
    let mut k: usize = 0;
    while k < ps.len() && ps[k].merge_col as u128 + ps[k].hide_len as u128 <= m as u128
        invariant
            k <= ps.len(),
            first_not_before(ps@, m as int, 0) == first_not_before(ps@, m as int, k as int),
        decreases ps.len() - k,
    {
        k = k + 1;
    }
    k
}

fn col_at_at(ps: &Vec<PhantomText>, origin_len: usize, m: usize, k: usize) -> (r: usize)
    requires
        phantoms_wf(ps@, origin_len as int),
        m <= origin_len,
        k == first_not_before(ps@, m as int, 0),
        k < ps.len() ==> ps[k as int].merge_col >= m,
    ensures
        r == col_at_spec(ps@, m as int),
{
    proof {
        lemma_col_at_bounds(ps@, origin_len as int, m as int);
        lemma_first_not_before(ps@, m as int, 0);
    }
    if k < ps.len() {
        ps[k].final_col - (ps[k].merge_col - m)
    } else if k == 0 {
        m
    } else {
        let last = &ps[k - 1];
        proof {
            lemma_phantom_end(ps@, origin_len as int, k - 1);
        }
        (m - (last.merge_col + last.hide_len)) + last.final_col + text_width(last)
    }
}

/// The merged origin column of final column `f`.
pub fn origin_col_of(ps: &Vec<PhantomText>, origin_len: usize, f: usize) -> (r: usize)
    requires
        phantoms_wf(ps@, origin_len as int),
        f <= final_len(ps@, origin_len as int),
    ensures
        r == origin_col_spec(ps@, f as int),
        r <= origin_len,
{
    let k = first_not_before_final_of(ps, origin_len, f);
    proof {
        lemma_origin_col_bounds(ps@, origin_len as int, f as int);
        lemma_first_not_before_final(ps@, f as int, 0);
    }
    if k < ps.len() {
        proof {
            lemma_phantom_end(ps@, origin_len as int, k as int);
        }
        if ps[k].final_col <= f {
            ps[k].merge_col
        } else {
            ps[k].merge_col - (ps[k].final_col - f)
        }
    } else if k == 0 {
        f
    } else {
        let last = &ps[k - 1];
        proof {
            lemma_phantom_end(ps@, origin_len as int, k - 1);
        }
        (f - (last.final_col + text_width(last))) + (last.merge_col + last.hide_len)
    }
}

/// The index of the phantom whose text holds final column `f`, if any.
pub fn phantom_at_final(ps: &Vec<PhantomText>, origin_len: usize, f: usize) -> (r: Option<usize>)
    requires
        phantoms_wf(ps@, origin_len as int),
    ensures
        r matches Some(k) ==> phantom_at_final_spec(ps@, f as int) == Some(k as int),
        r is None ==> phantom_at_final_spec(ps@, f as int) is None,
{
    let k = first_not_before_final_of(ps, origin_len, f);
    if k < ps.len() && ps[k].final_col <= f {
        Some(k)
    } else {
        None
    }
}

fn first_not_before_final_of(ps: &Vec<PhantomText>, origin_len: usize, f: usize) -> (k: usize)
    requires
        phantoms_wf(ps@, origin_len as int),
    ensures
        k == first_not_before_final(ps@, f as int, 0),
{
    let mut k: usize = 0;
    while k < ps.len() && ps[k].final_col as u128 + text_width(&ps[k]) as u128 <= f as u128
        invariant
            k <= ps.len(),
            first_not_before_final(ps@, f as int, 0) == first_not_before_final(ps@, f as int, k as int),
        decreases ps.len() - k,
    {
        k = k + 1;
    }
    k
}

} // verus!

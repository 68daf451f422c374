//! Incremental rebuilds: an edit touches a window of lines, the lines
//! before it are kept, the lines after it are moved, and only the window is
//! built again.
use vstd::prelude::*;
use crate::error::LayoutError;
use crate::line::OriginLine;
use crate::lines::{init_origin_line, line_fits, line_start, origin_line_of, origin_lines_wf, LineSources};
use crate::style::{adjusted_styles, Offset};

verus! {

/// One step of an edit over the old buffer: keep the old bytes
/// `[start, end)`, or insert `len` new bytes.
#[derive(Clone, Copy, Debug, PartialEq, Eq, Structural, Hash)]
pub enum DeltaElement {
    Copy(usize, usize),
    Insert(usize),
}

/// The bytes an edit leaves alone at both ends: it keeps the first
/// `prefix` bytes and the old bytes from `suffix` on.
#[derive(Clone, Copy, Debug, PartialEq, Eq, Structural, Hash)]
pub struct TouchedRange {
    pub prefix: usize,
    pub suffix: usize,
}

/// What an edit keeps at the start: the end of a leading copy from 0.
pub open spec fn kept_prefix(els: Seq<DeltaElement>) -> int {
    if els.len() > 0 {
        match els[0] {
            DeltaElement::Copy(s, e) => if s == 0 { e as int } else { 0 },
            _ => 0,
        }
    } else {
        0
    }
}

/// What an edit keeps at the end: the start of a trailing copy to the end.
pub open spec fn kept_suffix(els: Seq<DeltaElement>, old_len: int) -> int {
    if els.len() > 0 {
        match els.last() {
            DeltaElement::Copy(s, e) => if e == old_len { s as int } else { old_len },
            _ => old_len,
        }
    } else {
        old_len
    }
}

/// The old bytes an edit touches, or `None` when its shape is not one of
/// a kept prefix and a kept suffix that do not cross; a caller then
/// rebuilds everything.
pub fn touched_range(els: &Vec<DeltaElement>, old_len: usize) -> (r: Option<TouchedRange>)
    ensures
        r matches Some(t) ==> t.prefix == kept_prefix(els@) && t.suffix == kept_suffix(els@, old_len as int)
            && t.prefix <= t.suffix <= old_len,
        r is None <==> !(kept_prefix(els@) <= kept_suffix(els@, old_len as int) <= old_len),
{
    let prefix = if els.len() > 0 {
        match els[0] {
            DeltaElement::Copy(s, e) => if s == 0 { e } else { 0 },
            _ => 0,
        }
    } else {
        0
    };
    let suffix = if els.len() > 0 {
        match els[els.len() - 1] {
            DeltaElement::Copy(s, e) => if e == old_len { s } else { old_len },
            _ => old_len,
        }
    } else {
        old_len
    };
    if prefix <= suffix && suffix <= old_len {
        Some(TouchedRange { prefix, suffix })
    } else {
        None
    }
}

/// A changed window of lines: old lines `[start_line, end_line)` became new
/// lines `[start_line, new_end_line)`.
#[derive(Clone, Copy, Debug, PartialEq, Eq, Structural, Hash)]
pub struct OriginLinesDelta {
    pub start_line: usize,
    pub end_line: usize,
    pub new_end_line: usize,
}

/// Lines outside the window have the same lengths before and after.
pub open spec fn window_matches(old_lens: Seq<usize>, new_lens: Seq<usize>, d: OriginLinesDelta) -> bool {
    &&& d.start_line <= d.end_line <= old_lens.len()
    &&& d.start_line <= d.new_end_line <= new_lens.len()
    &&& old_lens.len() - d.end_line == new_lens.len() - d.new_end_line
    &&& forall|i: int| 0 <= i < d.start_line ==> old_lens[i] == #[trigger] new_lens[i]
    &&& forall|i: int|
        d.end_line <= i < old_lens.len() ==> #[trigger] old_lens[i] == new_lens[i - d.end_line
            + d.new_end_line]
}

/// The line that holds byte `o`, scanning from line `l`, which starts at
/// `start`: the first line that ends after `o`, or the last line.
pub open spec fn line_at_from(lens: Seq<usize>, o: int, l: int, start: int) -> int
    decreases lens.len() - l,
{
    if l < 0 || l >= lens.len() - 1 || start + lens[l] > o {
        l
    } else {
        line_at_from(lens, o, l + 1, start + lens[l])
    }
}

/// The line that holds byte `o`.
fn line_at_or_before(lens: &Vec<usize>, o: usize) -> (r: usize)
    requires
        lens@.len() > 0,
    ensures
        r == line_at_from(lens@, o as int, 0, 0),
        r < lens@.len(),
{
    let mut l: usize = 0;
    let mut start: usize = 0;
    while l < lens.len() - 1 && start as u128 + lens[l] as u128 <= o as u128
        invariant
            l < lens@.len(),
            start <= o,
            line_at_from(lens@, o as int, 0, 0) == line_at_from(lens@, o as int, l as int, start as int),
        decreases lens.len() - l,
    {
        start = start + lens[l];
        l = l + 1;
    }
    l
}

/// The window of lines from the line of byte `prefix` to the line of byte
/// `suffix` in the old buffer, when the lines outside it kept their
/// lengths.
pub open spec fn window_spec(old_lens: Seq<usize>, new_lens: Seq<usize>, prefix: int, suffix: int) -> Option<OriginLinesDelta> {
    if old_lens.len() == 0 || new_lens.len() == 0 {
        None
    } else {
        let s = line_at_from(old_lens, prefix, 0, 0);
        let e = line_at_from(old_lens, suffix, 0, 0) + 1;
        if old_lens.len() - e > new_lens.len() || s > new_lens.len() - (old_lens.len() - e) || s > e {
            None
        } else {
            let w = OriginLinesDelta {
                start_line: s as usize,
                end_line: e as usize,
                new_end_line: (new_lens.len() - (old_lens.len() - e)) as usize,
            };
            if window_matches(old_lens, new_lens, w) {
                Some(w)
            } else {
                None
            }
        }
    }
}

/// The window an edit touched, as `resolve_delta` finds it.
pub open spec fn resolve_spec(old_lens: Seq<usize>, new_lens: Seq<usize>, els: Seq<DeltaElement>, old_len: usize) -> Option<
    OriginLinesDelta,
> {
    let prefix = kept_prefix(els);
    let suffix = kept_suffix(els, old_len as int);
    if !(prefix <= suffix <= old_len) {
        None
    } else {
        window_spec(old_lens, new_lens, prefix, suffix)
    }
}

/// Whether the lines outside the window kept their lengths.
pub fn check_window(old_lens: &Vec<usize>, new_lens: &Vec<usize>, d: OriginLinesDelta) -> (r: bool)
    ensures
        r == window_matches(old_lens@, new_lens@, d),
{
    if !(d.start_line <= d.end_line && d.end_line <= old_lens.len() && d.start_line <= d.new_end_line
        && d.new_end_line <= new_lens.len() && old_lens.len() - d.end_line == new_lens.len() - d.new_end_line) {
        return false;
    }
    let mut i: usize = 0;
    while i < d.start_line
        invariant
            i <= d.start_line <= d.end_line <= old_lens@.len(),
            d.start_line <= new_lens@.len(),
            forall|k: int| 0 <= k < i ==> old_lens@[k] == #[trigger] new_lens@[k],
        decreases d.start_line - i,
    {
        if old_lens[i] != new_lens[i] {
            return false;
        }
        i = i + 1;
    }
    let nlen = new_lens.len();
    let mut i: usize = d.end_line;
    while i < old_lens.len()
        invariant
            new_lens@.len() == nlen,
            d.end_line <= i <= old_lens@.len(),
            d.new_end_line <= new_lens@.len(),
            old_lens@.len() - d.end_line == new_lens@.len() - d.new_end_line,
            forall|k: int| d.end_line <= k < i ==> #[trigger] old_lens@[k] == new_lens@[k - d.end_line + d.new_end_line],
        decreases old_lens.len() - i,
    {
        if old_lens[i] != new_lens[i - d.end_line + d.new_end_line] {
            return false;
        }
        i = i + 1;
    }
    true
}

/// The window of lines that an edit touched: from the line of the first
/// touched byte to the line of the last, in the old and in the new
/// buffer. `None` asks for a full rebuild: the edit's shape is not
/// recognized, or the lines outside the window changed after all.
pub fn resolve_delta(
    old_lens: &Vec<usize>,
    new_lens: &Vec<usize>,
    els: &Vec<DeltaElement>,
    old_len: usize,
) -> (r: Option<OriginLinesDelta>)
    ensures
        r == resolve_spec(old_lens@, new_lens@, els@, old_len),
        r matches Some(d) ==> window_matches(old_lens@, new_lens@, d),
{
    let t = touched_range(els, old_len)?;
    window_of(old_lens, new_lens, t.prefix, t.suffix)
}

fn window_of(old_lens: &Vec<usize>, new_lens: &Vec<usize>, prefix: usize, suffix: usize) -> (r: Option<OriginLinesDelta>)
    ensures
        r == window_spec(old_lens@, new_lens@, prefix as int, suffix as int),
        r matches Some(d) ==> window_matches(old_lens@, new_lens@, d),
{
    if old_lens.len() == 0 || new_lens.len() == 0 {
        return None;
    }
    let start_line = line_at_or_before(old_lens, prefix);
    let last = line_at_or_before(old_lens, suffix);
    let end_line = last + 1;
    if old_lens.len() - end_line > new_lens.len() || start_line > new_lens.len() - (old_lens.len() - end_line)
        || start_line > end_line {
        return None;
    }
    let new_end_line = new_lens.len() - (old_lens.len() - end_line);
    let d = OriginLinesDelta { start_line, end_line, new_end_line };
    if check_window(old_lens, new_lens, d) {
        Some(d)
    } else {
        None
    }
}

/// The bytes that several successive edits (each with the length of the
/// buffer it applies to) leave alone at both ends of the old buffer: the
/// least kept prefix, and the least kept tail.
pub open spec fn kept_ends(deltas: Seq<(Vec<DeltaElement>, usize)>) -> (int, int)
    decreases deltas.len(),
{
    if deltas.len() == 0 {
        (usize::MAX as int, usize::MAX as int)
    } else {
        let (p, t) = kept_ends(deltas.drop_last());
        let (els, base) = deltas.last();
        let p2 = kept_prefix(els@);
        let t2 = base - kept_suffix(els@, base as int);
        (if p2 < p { p2 } else { p }, if t2 < t { t2 } else { t })
    }
}

/// The window of lines that several edits of one change touched together:
/// the union of their windows. `None` asks for a full rebuild.
pub fn resolve_deltas(
    old_lens: &Vec<usize>,
    new_lens: &Vec<usize>,
    deltas: &Vec<(Vec<DeltaElement>, usize)>,
    old_len: usize,
) -> (r: Option<OriginLinesDelta>)
    ensures
        r == (if deltas@.len() == 0 || kept_ends(deltas@).1 < 0 || kept_ends(deltas@).1 > old_len || kept_ends(deltas@).0
            > old_len - kept_ends(deltas@).1 {
            None
        } else {
            window_spec(old_lens@, new_lens@, kept_ends(deltas@).0, old_len - kept_ends(deltas@).1)
        }),
        r matches Some(d) ==> window_matches(old_lens@, new_lens@, d),
{
    if deltas.len() == 0 {
        return None;
    }
    let mut prefix: i128 = usize::MAX as i128;
    let mut tail: i128 = usize::MAX as i128;
    let mut i: usize = 0;
    while i < deltas.len()
        invariant
            i <= deltas@.len(),
            (prefix as int, tail as int) == kept_ends(deltas@.subrange(0, i as int)),
            0 <= prefix <= usize::MAX,
            -(usize::MAX as int) <= tail <= usize::MAX,
        decreases deltas.len() - i,
    {
        let els = &deltas[i].0;
        let base = deltas[i].1;
        let p2: usize = if els.len() > 0 {
            match els[0] {
                DeltaElement::Copy(s, e) => if s == 0 { e } else { 0 },
                _ => 0,
            }
        } else {
            0
        };
        let s2: usize = if els.len() > 0 {
            match els[els.len() - 1] {
                DeltaElement::Copy(s, e) => if e == base { s } else { base },
                _ => base,
            }
        } else {
            base
        };
        let t2: i128 = base as i128 - s2 as i128;
        proof {
            assert(deltas@.subrange(0, i + 1).drop_last() =~= deltas@.subrange(0, i as int));
            assert(deltas@.subrange(0, i + 1).last() == deltas@[i as int]);
        }
        if (p2 as i128) < prefix {
            prefix = p2 as i128;
        }
        if t2 < tail {
            tail = t2;
        }
        i = i + 1;
    }
    proof {
        assert(deltas@.subrange(0, deltas@.len() as int) =~= deltas@);
    }
    if tail < 0 || tail > old_len as i128 || prefix > old_len as i128 - tail {
        return None;
    }
    window_of(old_lens, new_lens, prefix as usize, (old_len as i128 - tail) as usize)
}

proof fn lemma_line_start_split(a: Seq<usize>, b: Seq<usize>, k: int, sa: int, sb: int)
    requires
        0 <= k,
        0 <= sa,
        0 <= sb,
        sa + k <= a.len(),
        sb + k <= b.len(),
        forall|i: int| 0 <= i < k ==> a[sa + i] == #[trigger] b[sb + i],
    ensures
        line_start(a, sa + k) - line_start(a, sa) == line_start(b, sb + k) - line_start(b, sb),
    decreases k,
{
    if k > 0 {
        lemma_line_start_split(a, b, k - 1, sa, sb);
        assert(a[sa + (k - 1)] == b[sb + (k - 1)]);
    }
}

/// How far the lines after the window move in bytes.
pub open spec fn byte_shift(old_lens: Seq<usize>, new_lens: Seq<usize>, d: OriginLinesDelta) -> Offset {
    let ns = line_start(new_lens, d.new_end_line as int);
    let os = line_start(old_lens, d.end_line as int);
    if ns >= os { Offset::Add((ns - os) as usize) } else { Offset::Minus((os - ns) as usize) }
}

/// How far the lines after the window move in line numbers.
pub open spec fn line_shift(d: OriginLinesDelta) -> Offset {
    if d.new_end_line >= d.end_line {
        Offset::Add((d.new_end_line - d.end_line) as usize)
    } else {
        Offset::Minus((d.end_line - d.new_end_line) as usize)
    }
}

pub proof fn lemma_line_start_mono(lens: Seq<usize>, i: int, j: int)
    requires
        0 <= i <= j <= lens.len(),
    ensures
        line_start(lens, i) <= line_start(lens, j),
    decreases j - i,
{
    if i < j {
        lemma_line_start_mono(lens, i, j - 1);
    }
}

/// Whether `off` can be applied to `x`.
fn fits(off: Offset, x: usize) -> (r: bool)
    ensures
        r == off.fits(x),
{
    match off {
        Offset::Zero => true,
        Offset::Add(n) => x as u128 + n as u128 <= usize::MAX as u128,
        Offset::Minus(n) => n <= x,
    }
}

/// The line moved by an edit before it, or `None` when one of its offsets
/// or line numbers would leave `usize`.
fn try_adjust(line: &OriginLine, offset: Offset, line_offset: Offset) -> (r: Option<OriginLine>)
    requires
        line.wf(),
    ensures
        r matches Some(a) ==> {
            &&& a.wf()
            &&& line_offset.fits(line.line_index)
            &&& offset.fits(line.start_offset)
            &&& a.line_index == line_offset.apply(line.line_index)
            &&& a.start_offset == offset.apply(line.start_offset)
            &&& a.len == line.len
            &&& a.semantic_styles@ == adjusted_styles(line.semantic_styles@, offset, line_offset)
            &&& a.diagnostic_styles@ == adjusted_styles(line.diagnostic_styles@, offset, line_offset)
        },
        line.can_adjust(offset, line_offset) ==> r is Some,
{
    proof {
        reveal(OriginLine::wf);
    }
    if !fits(line_offset, line.line_index) || !fits(offset, line.start_offset)
        || !fits(offset, line.start_offset + line.len) {
        return None;
    }
    let mut i: usize = 0;
    while i < line.semantic_styles.len()
        invariant
            i <= line.semantic_styles@.len(),
            forall|k: int| 0 <= k < i ==> (#[trigger] line.semantic_styles@[k]).can_adjust(offset, line_offset),
        decreases line.semantic_styles.len() - i,
    {
        let st = &line.semantic_styles[i];
        if !fits(offset, st.start_of_buffer) || !fits(offset, st.end_of_buffer) || !fits(line_offset, st.origin_line) {
            proof {
                assert(!line.semantic_styles@[i as int].can_adjust(offset, line_offset));
            }
            return None;
        }
        i = i + 1;
    }
    let mut i: usize = 0;
    while i < line.diagnostic_styles.len()
        invariant
            i <= line.diagnostic_styles@.len(),
            forall|k: int| 0 <= k < i ==> (#[trigger] line.diagnostic_styles@[k]).can_adjust(offset, line_offset),
        decreases line.diagnostic_styles.len() - i,
    {
        let st = &line.diagnostic_styles[i];
        if !fits(offset, st.start_of_buffer) || !fits(offset, st.end_of_buffer) || !fits(line_offset, st.origin_line) {
            proof {
                assert(!line.diagnostic_styles@[i as int].can_adjust(offset, line_offset));
            }
            return None;
        }
        i = i + 1;
    }
    let texts = &line.phantom.texts;
    let mut i: usize = 0;
    while i < texts.len()
        invariant
            i <= texts@.len(),
            forall|k: int| 0 <= k < i ==> (#[trigger] texts@[k]).can_adjust_lines(line_offset),
            texts@ == line.phantom.texts@,
        decreases texts.len() - i,
    {
        let p = &texts[i];
        if !fits(line_offset, p.line) {
            proof {
                assert(!line.phantom.texts@[i as int].can_adjust_lines(line_offset));
            }
            return None;
        }
        match p.kind {
            crate::phantom::PhantomTextKind::LineFoldedRang { next_line, start_line, .. } => {
                if !fits(line_offset, next_line) || !fits(line_offset, start_line) {
                    proof {
                        assert(!line.phantom.texts@[i as int].can_adjust_lines(line_offset));
                    }
                    return None;
                }
            },
            _ => {},
        }
        i = i + 1;
    }
    Some(line.adjust(offset, line_offset))
}

/// The sum of the first `k` lengths, or `None` when it would not fit.
fn prefix_sum(lens: &Vec<usize>, k: usize) -> (r: Option<usize>)
    requires
        k <= lens@.len(),
    ensures
        r matches Some(v) ==> v == line_start(lens@, k as int),
        r is None ==> line_start(lens@, k as int) > usize::MAX,
{
    let mut acc: usize = 0;
    let mut i: usize = 0;
    while i < k
        invariant
            i <= k <= lens@.len(),
            acc == line_start(lens@, i as int),
        decreases k - i,
    {
        if acc as u128 + lens[i] as u128 > usize::MAX as u128 {
            proof {
                lemma_line_start_mono(lens@, i + 1, k as int);
            }
            return None;
        }
        acc = acc + lens[i];
        i = i + 1;
    }
    Some(acc)
}

/// The rebuilt lines agree with a full rebuild from `new_lens` on the
/// first `n` lines.
pub open spec fn geometry_prefix(out: Seq<OriginLine>, new_lens: Seq<usize>, n: int) -> bool {
    &&& out.len() == n
    &&& forall|k: int| 0 <= k < n ==> {
        &&& (#[trigger] out[k]).len == new_lens[k]
        &&& out[k].start_offset == line_start(new_lens, k)
        &&& out[k].line_index == k
        &&& out[k].wf()
        &&& out[k].start_offset + out[k].len <= usize::MAX
    }
}

/// The origin lines after an edit, built incrementally: the lines before
/// the window are kept, the window is built from the new line lengths,
/// and the lines after it are moved by the change in bytes and in lines.
/// When the edit stays within the window, the result has the line
/// numbers, offsets and lengths of the lines that `build_origin_lines`
/// builds from the new lengths from scratch.
#[verifier::rlimit(50)]
pub fn rebuild_origin_lines(
    old: &Vec<OriginLine>,
    old_lens: &Vec<usize>,
    new_lens: &Vec<usize>,
    d: OriginLinesDelta,
    src: &LineSources,
) -> (r: Result<Vec<OriginLine>, LayoutError>)
    requires
        origin_lines_wf(old@),
        old@.len() == old_lens@.len(),
        forall|i: int| 0 <= i < old@.len() ==> (#[trigger] old@[i]).len == old_lens@[i] && old@[i].start_offset
            == line_start(old_lens@, i),
        window_matches(old_lens@, new_lens@, d),
    ensures
        r matches Ok(ols) ==> {
            &&& origin_lines_wf(ols@)
            &&& geometry_prefix(ols@, new_lens@, new_lens@.len() as int)
            &&& forall|i: int|
                0 <= i < d.start_line ==> (#[trigger] ols@[i]).semantic_styles@ == old@[i].semantic_styles@
                    && ols@[i].diagnostic_styles@ == old@[i].diagnostic_styles@
            &&& forall|j: int|
                d.start_line <= j < d.new_end_line ==> origin_line_of(
                    #[trigger] ols@[j],
                    j as usize,
                    line_start(new_lens@, j) as usize,
                    new_lens@[j],
                    *src,
                )
            &&& forall|i: int|
                d.end_line <= i < old@.len() ==> {
                    &&& (#[trigger] ols@[i - d.end_line + d.new_end_line]).semantic_styles@ == adjusted_styles(
                        old@[i].semantic_styles@,
                        byte_shift(old_lens@, new_lens@, d),
                        line_shift(d),
                    )
                    &&& ols@[i - d.end_line + d.new_end_line].diagnostic_styles@ == adjusted_styles(
                        old@[i].diagnostic_styles@,
                        byte_shift(old_lens@, new_lens@, d),
                        line_shift(d),
                    )
                }
        },
        ((forall|j: int|
            d.start_line <= j < d.new_end_line ==> line_fits(
                j as usize,
                line_start(new_lens@, j) as usize,
                #[trigger] new_lens@[j],
                *src,
            )) && line_start(new_lens@, d.new_end_line as int) <= usize::MAX && line_start(old_lens@, d.end_line as int)
            <= usize::MAX && forall|i: int|
            d.end_line <= i < old@.len() ==> (#[trigger] old@[i]).can_adjust(byte_shift(old_lens@, new_lens@, d), line_shift(d)))
            ==> r is Ok,
{
    let ghost ok_pre = (forall|j: int|
        d.start_line <= j < d.new_end_line ==> line_fits(
            j as usize,
            line_start(new_lens@, j) as usize,
            #[trigger] new_lens@[j],
            *src,
        )) && line_start(new_lens@, d.new_end_line as int) <= usize::MAX && line_start(old_lens@, d.end_line as int)
        <= usize::MAX && forall|i: int|
        d.end_line <= i < old@.len() ==> (#[trigger] old@[i]).can_adjust(byte_shift(old_lens@, new_lens@, d), line_shift(d));
    let mut out: Vec<OriginLine> = Vec::new();
    let mut i: usize = 0;
    while i < d.start_line
        invariant
            origin_lines_wf(old@),
            old@.len() == old_lens@.len(),
            forall|k: int| 0 <= k < old@.len() ==> (#[trigger] old@[k]).len == old_lens@[k] && old@[k].start_offset
                == line_start(old_lens@, k),
            window_matches(old_lens@, new_lens@, d),
            i <= d.start_line,
            geometry_prefix(out@, new_lens@, i as int),
            forall|k: int|
                0 <= k < i ==> (#[trigger] out@[k]).semantic_styles@ == old@[k].semantic_styles@
                    && out@[k].diagnostic_styles@ == old@[k].diagnostic_styles@,
        decreases d.start_line - i,
    {
        let line = &old[i];
        proof {
            assert(old@[i as int].wf() && old@[i as int].line_index == i);
            lemma_line_start_split(old_lens@, new_lens@, i as int, 0, 0);
            assert(old@[i as int].start_offset + old@[i as int].len <= usize::MAX);
        }
        proof {
            assert(line.can_adjust(Offset::Zero, Offset::Zero));
        }
        let kept = match try_adjust(line, Offset::Zero, Offset::Zero) {
            Some(k) => k,
            None => {
                return Err(LayoutError::InvalidInterval);
            },
        };
        proof {
            assert(adjusted_styles(line.semantic_styles@, Offset::Zero, Offset::Zero) =~= line.semantic_styles@);
            assert(adjusted_styles(line.diagnostic_styles@, Offset::Zero, Offset::Zero) =~= line.diagnostic_styles@);
        }
        let ghost before = out@;
        out.push(kept);
        proof {
            assert forall|k: int|
                0 <= k < i + 1 implies (#[trigger] out@[k]).semantic_styles@ == old@[k].semantic_styles@
                    && out@[k].diagnostic_styles@ == old@[k].diagnostic_styles@ by {
                if k < i {
                    assert(out@[k] == before[k]);
                }
            }
            assert forall|k: int| 0 <= k < i + 1 implies {
                &&& (#[trigger] out@[k]).len == new_lens@[k]
                &&& out@[k].start_offset == line_start(new_lens@, k)
                &&& out@[k].line_index == k
                &&& out@[k].wf()
                &&& out@[k].start_offset + out@[k].len <= usize::MAX
            } by {
                if k < i {
                    assert(out@[k] == before[k]);
                }
            }
        }
        i = i + 1;
    }
    // the window
    proof {
        if ok_pre {
            lemma_line_start_mono(new_lens@, d.start_line as int, d.new_end_line as int);
        }
    }
    let mut start = match prefix_sum(new_lens, d.start_line) {
        Some(s) => s,
        None => {
            return Err(LayoutError::InvalidInterval);
        },
    };
    let mut j: usize = d.start_line;
    while j < d.new_end_line
        invariant
            window_matches(old_lens@, new_lens@, d),
            d.start_line <= j <= d.new_end_line,
            start == line_start(new_lens@, j as int),
            geometry_prefix(out@, new_lens@, j as int),
            old@.len() == old_lens@.len(),
            forall|k: int|
                0 <= k < d.start_line ==> (#[trigger] out@[k]).semantic_styles@ == old@[k].semantic_styles@
                    && out@[k].diagnostic_styles@ == old@[k].diagnostic_styles@,
            ok_pre ==> forall|k: int|
                d.start_line <= k < d.new_end_line ==> line_fits(
                    k as usize,
                    line_start(new_lens@, k) as usize,
                    #[trigger] new_lens@[k],
                    *src,
                ),
            forall|k: int|
                d.start_line <= k < j ==> origin_line_of(
                    #[trigger] out@[k],
                    k as usize,
                    line_start(new_lens@, k) as usize,
                    new_lens@[k],
                    *src,
                ),
        decreases d.new_end_line - j,
    {
        let ol = match init_origin_line(j, start, new_lens[j], src) {
            Ok(ol) => ol,
            Err(e) => {
                proof {
                    if ok_pre {
                        assert(line_fits(j as usize, line_start(new_lens@, j as int) as usize, new_lens@[j as int], *src));
                    }
                }
                return Err(e);
            },
        };
        proof {
            reveal(origin_line_of);
        }
        let ghost before = out@;
        out.push(ol);
        proof {
            assert forall|k: int|
                0 <= k < d.start_line implies (#[trigger] out@[k]).semantic_styles@ == old@[k].semantic_styles@
                    && out@[k].diagnostic_styles@ == old@[k].diagnostic_styles@ by {
                assert(out@[k] == before[k]);
            }
            assert forall|k: int|
                d.start_line <= k < j + 1 implies origin_line_of(
                    #[trigger] out@[k],
                    k as usize,
                    line_start(new_lens@, k) as usize,
                    new_lens@[k],
                    *src,
                ) by {
                if k < j {
                    assert(out@[k] == before[k]);
                }
            }
            assert forall|k: int| 0 <= k < j + 1 implies {
                &&& (#[trigger] out@[k]).len == new_lens@[k]
                &&& out@[k].start_offset == line_start(new_lens@, k)
                &&& out@[k].line_index == k
                &&& out@[k].wf()
                &&& out@[k].start_offset + out@[k].len <= usize::MAX
            } by {
                if k < j {
                    assert(out@[k] == before[k]);
                }
            }
        }
        start = start + new_lens[j];
        j = j + 1;
    }
    // the moved lines
    let ghost window_out = out@;
    proof {
        if ok_pre {
            lemma_line_start_mono(new_lens@, d.start_line as int, d.new_end_line as int);
        }
    }
    let old_start = match prefix_sum(old_lens, d.end_line) {
        Some(s) => s,
        None => {
            return Err(LayoutError::InvalidInterval);
        },
    };
    let offset = if start >= old_start { Offset::Add(start - old_start) } else { Offset::Minus(old_start - start) };
    let line_offset = if d.new_end_line >= d.end_line {
        Offset::Add(d.new_end_line - d.end_line)
    } else {
        Offset::Minus(d.end_line - d.new_end_line)
    };
    let mut i: usize = d.end_line;
    while i < old.len()
        invariant
            origin_lines_wf(old@),
            old@.len() == old_lens@.len(),
            forall|k: int| 0 <= k < old@.len() ==> (#[trigger] old@[k]).len == old_lens@[k] && old@[k].start_offset
                == line_start(old_lens@, k),
            window_matches(old_lens@, new_lens@, d),
            d.end_line <= i <= old@.len(),
            start == line_start(new_lens@, d.new_end_line as int),
            old_start == line_start(old_lens@, d.end_line as int),
            offset == (if start >= old_start { Offset::Add((start - old_start) as usize) } else { Offset::Minus((old_start - start) as usize) }),
            line_offset == (if d.new_end_line >= d.end_line { Offset::Add((d.new_end_line - d.end_line) as usize) } else { Offset::Minus((d.end_line - d.new_end_line) as usize) }),
            geometry_prefix(out@, new_lens@, i - d.end_line + d.new_end_line),
            d.start_line <= d.new_end_line,
            forall|k: int|
                0 <= k < d.start_line ==> (#[trigger] out@[k]).semantic_styles@ == old@[k].semantic_styles@
                    && out@[k].diagnostic_styles@ == old@[k].diagnostic_styles@,
            offset == byte_shift(old_lens@, new_lens@, d),
            line_offset == line_shift(d),
            ok_pre ==> forall|k: int|
                d.end_line <= k < old@.len() ==> (#[trigger] old@[k]).can_adjust(byte_shift(old_lens@, new_lens@, d), line_shift(d)),
            forall|k: int|
                d.start_line <= k < d.new_end_line ==> origin_line_of(
                    #[trigger] out@[k],
                    k as usize,
                    line_start(new_lens@, k) as usize,
                    new_lens@[k],
                    *src,
                ),
            forall|k: int|
                d.end_line <= k < i ==> {
                    &&& (#[trigger] out@[k - d.end_line + d.new_end_line]).semantic_styles@ == adjusted_styles(
                        old@[k].semantic_styles@,
                        byte_shift(old_lens@, new_lens@, d),
                        line_shift(d),
                    )
                    &&& out@[k - d.end_line + d.new_end_line].diagnostic_styles@ == adjusted_styles(
                        old@[k].diagnostic_styles@,
                        byte_shift(old_lens@, new_lens@, d),
                        line_shift(d),
                    )
                },
        decreases old.len() - i,
    {
        let line = &old[i];
        let ghost jn = i - d.end_line + d.new_end_line;
        proof {
            assert(old@[i as int].wf() && old@[i as int].line_index == i);
            lemma_line_start_split(old_lens@, new_lens@, i - d.end_line, d.end_line as int, d.new_end_line as int);
        }
        let moved = match try_adjust(line, offset, line_offset) {
            Some(m) => m,
            None => {
                proof {
                    if ok_pre {
                        assert(old@[i as int].can_adjust(byte_shift(old_lens@, new_lens@, d), line_shift(d)));
                    }
                }
                return Err(LayoutError::InvalidInterval);
            },
        };
        proof {
            assert(moved.start_offset + moved.len <= usize::MAX) by {
                reveal(OriginLine::wf);
            }
        }
        proof {
            assert(moved.len == new_lens@[jn]);
            assert(moved.line_index == jn);
            assert(line_start(old_lens@, i as int) - old_start == line_start(new_lens@, jn) - start);
            assert(moved.start_offset == line_start(new_lens@, jn));
        }
        let ghost before = out@;
        out.push(moved);
        proof {
            assert forall|k: int|
                0 <= k < d.start_line implies (#[trigger] out@[k]).semantic_styles@ == old@[k].semantic_styles@
                    && out@[k].diagnostic_styles@ == old@[k].diagnostic_styles@ by {
                assert(out@[k] == before[k]);
            }
            assert forall|k: int| 0 <= k < jn + 1 implies {
                &&& (#[trigger] out@[k]).len == new_lens@[k]
                &&& out@[k].start_offset == line_start(new_lens@, k)
                &&& out@[k].line_index == k
                &&& out@[k].wf()
                &&& out@[k].start_offset + out@[k].len <= usize::MAX
            } by {
                if k < jn {
                    assert(out@[k] == before[k]);
                }
            }
            assert forall|k: int|
                d.start_line <= k < d.new_end_line implies origin_line_of(
                    #[trigger] out@[k],
                    k as usize,
                    line_start(new_lens@, k) as usize,
                    new_lens@[k],
                    *src,
                ) by {
                assert(out@[k] == before[k]);
            }
            assert forall|k: int|
                d.end_line <= k < i + 1 implies {
                    &&& (#[trigger] out@[k - d.end_line + d.new_end_line]).semantic_styles@ == adjusted_styles(
                        old@[k].semantic_styles@,
                        byte_shift(old_lens@, new_lens@, d),
                        line_shift(d),
                    )
                    &&& out@[k - d.end_line + d.new_end_line].diagnostic_styles@ == adjusted_styles(
                        old@[k].diagnostic_styles@,
                        byte_shift(old_lens@, new_lens@, d),
                        line_shift(d),
                    )
                } by {
                if k < i {
                    assert(out@[k - d.end_line + d.new_end_line] == before[k - d.end_line + d.new_end_line]);
                }
            }
        }
        i = i + 1;
    }
    proof {
        assert forall|k: int| 0 <= k < out@.len() - 1 implies #[trigger] out@[k + 1].start_offset == #[trigger] out@[k].start_offset + out@[k].len by {
            assert(line_start(new_lens@, k + 1) == line_start(new_lens@, k) + new_lens@[k]);
        }
    }
    Ok(out)
}

/// An incremental rebuild and a full rebuild from the same new line
/// lengths agree on every line's number, start offset and length.
pub proof fn lemma_incremental_matches_full(inc: Seq<OriginLine>, full: Seq<OriginLine>, new_lens: Seq<usize>)
    requires
        geometry_prefix(inc, new_lens, new_lens.len() as int),
        full.len() == new_lens.len(),
        forall|i: int| 0 <= i < new_lens.len() ==> {
            &&& (#[trigger] full[i]).len == new_lens[i]
            &&& full[i].start_offset == line_start(new_lens, i)
            &&& full[i].line_index == i
        },
    ensures
        inc.len() == full.len(),
        forall|i: int| 0 <= i < inc.len() ==> {
            &&& (#[trigger] inc[i]).line_index == full[i].line_index
            &&& inc[i].start_offset == full[i].start_offset
            &&& inc[i].len == full[i].len
        },
{
    assert forall|i: int| 0 <= i < inc.len() implies {
        &&& (#[trigger] inc[i]).line_index == full[i].line_index
        &&& inc[i].start_offset == full[i].start_offset
        &&& inc[i].len == full[i].len
    } by {
        assert(full[i].len == new_lens[i]);
    }
}

/// The origin lines are numbered by index and lie where lines of lengths
/// `lens` lie, as an incremental rebuild expects of the lines it starts
/// from.
pub fn lines_match(old: &Vec<OriginLine>, lens: &Vec<usize>) -> (r: bool)
    ensures
        r == (old@.len() == lens@.len() && forall|i: int|
            0 <= i < old@.len() ==> (#[trigger] old@[i]).line_index == i && old@[i].start_offset == line_start(lens@, i)
                && old@[i].len == lens@[i]),
{
    if old.len() != lens.len() {
        return false;
    }
    let mut start: u128 = 0;
    let mut i: usize = 0;
    while i < old.len()
        invariant
            old@.len() == lens@.len(),
            i <= old@.len(),
            start == line_start(lens@, i as int),
            forall|k: int|
                0 <= k < i ==> (#[trigger] old@[k]).line_index == k && old@[k].start_offset == line_start(lens@, k)
                    && old@[k].len == lens@[k],
        decreases old.len() - i,
    {
        let line = &old[i];
        if line.line_index != i || line.start_offset as u128 != start || line.len != lens[i] {
            return false;
        }
        proof {
            lemma_line_start_mono(lens@, 0, i as int);
        }
        start = start + lens[i] as u128;
        i = i + 1;
    }
    true
}

/// The origin lines after the edits `deltas` of one change turned a buffer
/// of lines `old_lens` (`old_len` bytes) into one of lines `new_lens`:
/// rebuilt incrementally when the old lines lie where `old_lens` says and
/// the edits touch one window of lines, from scratch otherwise.
pub fn rebuild_lines(
    old: &Vec<OriginLine>,
    old_lens: &Vec<usize>,
    new_lens: &Vec<usize>,
    deltas: &Vec<(Vec<DeltaElement>, usize)>,
    old_len: usize,
    src: &LineSources,
) -> (r: Result<Vec<OriginLine>, LayoutError>)
    requires
        origin_lines_wf(old@),
    ensures
        r matches Ok(ols) ==> origin_lines_wf(ols@) && geometry_prefix(ols@, new_lens@, new_lens@.len() as int),
        !(lines_geometry(old@, old_lens@) && resolve_deltas_spec(old_lens@, new_lens@, deltas@, old_len) is Some) ==> {
            &&& (forall|i: int|
                0 <= i < new_lens@.len() ==> line_fits(i as usize, line_start(new_lens@, i) as usize, #[trigger] new_lens@[i], *src))
                ==> r is Ok
            &&& r matches Ok(ols) ==> forall|i: int|
                0 <= i < new_lens@.len() ==> origin_line_of(
                    #[trigger] ols@[i],
                    i as usize,
                    line_start(new_lens@, i) as usize,
                    new_lens@[i],
                    *src,
                )
        },
{
    if lines_match(old, old_lens) {
        if let Some(window) = resolve_deltas(old_lens, new_lens, deltas, old_len) {
            return rebuild_origin_lines(old, old_lens, new_lens, window, src);
        }
    }
    let r = crate::lines::build_origin_lines(new_lens, src);
    proof {
        if r is Ok {
            let ols = r->Ok_0;
            assert forall|k: int| 0 <= k < ols@.len() implies (#[trigger] ols@[k]).wf() && ols@[k].line_index == k && ols@[k].start_offset + ols@[k].len <= usize::MAX by {
                reveal(origin_line_of);
            }
        }
    }
    r
}

/// The origin lines lie where lines of lengths `lens` lie.
pub open spec fn lines_geometry(old: Seq<OriginLine>, lens: Seq<usize>) -> bool {
    old.len() == lens.len() && forall|i: int|
        0 <= i < old.len() ==> (#[trigger] old[i]).line_index == i && old[i].start_offset == line_start(lens, i)
            && old[i].len == lens[i]
}

/// The window that `resolve_deltas` finds.
pub open spec fn resolve_deltas_spec(
    old_lens: Seq<usize>,
    new_lens: Seq<usize>,
    deltas: Seq<(Vec<DeltaElement>, usize)>,
    old_len: usize,
) -> Option<OriginLinesDelta> {
    if deltas.len() == 0 || kept_ends(deltas).1 < 0 || kept_ends(deltas).1 > old_len || kept_ends(deltas).0 > old_len
        - kept_ends(deltas).1 {
        None
    } else {
        window_spec(old_lens, new_lens, kept_ends(deltas).0, old_len - kept_ends(deltas).1)
    }
}

} // verus!

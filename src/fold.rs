//! Folding ranges: which spans of the buffer are collapsed.
use vstd::prelude::*;

verus! {

/// A position as (line, character) in the buffer.
#[derive(Clone, Copy, Debug, PartialEq, Eq, Structural, Hash)]
pub struct FoldPosition {
    pub line: usize,
    pub character: usize,
}

pub open spec fn pos_le(a: FoldPosition, b: FoldPosition) -> bool {
    a.line < b.line || (a.line == b.line && a.character <= b.character)
}

pub fn pos_le_exec(a: FoldPosition, b: FoldPosition) -> (r: bool)
    ensures
        r == pos_le(a, b),
{
    a.line < b.line || (a.line == b.line && a.character <= b.character)
}

#[derive(Clone, Copy, Debug, PartialEq, Eq, Structural, Hash)]
pub enum FoldingRangeStatus {
    Fold,
    Unfold,
}

impl FoldingRangeStatus {
    pub open spec fn clicked(self) -> FoldingRangeStatus {
        match self {
            FoldingRangeStatus::Fold => FoldingRangeStatus::Unfold,
            FoldingRangeStatus::Unfold => FoldingRangeStatus::Fold,
        }
    }

    pub fn click(&mut self)
        ensures
            *final(self) == old(self).clicked(),
    {
        *self = match *self {
            FoldingRangeStatus::Fold => FoldingRangeStatus::Unfold,
            FoldingRangeStatus::Unfold => FoldingRangeStatus::Fold,
        };
    }
}

/// A foldable span from `start` to `end`.
#[derive(Clone, Copy, Debug, PartialEq, Eq, Structural, Hash)]
pub struct FoldingRange {
    pub start: FoldPosition,
    pub end: FoldPosition,
    pub status: FoldingRangeStatus,
}

impl FoldingRange {
    pub open spec fn contains(&self, p: FoldPosition) -> bool {
        pos_le(self.start, p) && pos_le(p, self.end)
    }

    pub open spec fn is_folded(&self) -> bool {
        self.status == FoldingRangeStatus::Fold
    }
}

/// What a fold affordance in the gutter shows.
#[derive(Clone, Copy, Debug, PartialEq, Eq, Structural, Hash)]
pub enum FoldingDisplayType {
    UnfoldStart,
    Folded,
    UnfoldEnd,
}

/// A clickable fold affordance at `position`, on screen row `row` of the
/// visible lines.
#[derive(Clone, Copy, Debug, PartialEq, Eq, Structural, Hash)]
pub struct FoldingDisplayItem {
    pub position: FoldPosition,
    pub row: usize,
    pub ty: FoldingDisplayType,
}

/// The folding ranges of a document.
#[derive(Clone, Debug)]
pub struct FoldingRanges(pub Vec<FoldingRange>);

/// The first range, from `i` on, that an item of kind `ty` at `p` clicks:
/// the one that starts at `p`, or for an end marker the one that ends there.
pub open spec fn clicked_index(rs: Seq<FoldingRange>, p: FoldPosition, end_marker: bool, i: int) -> Option<int>
    decreases rs.len() - i,
{
    if i < 0 || i >= rs.len() {
        None
    } else if (if end_marker { rs[i].end == p } else { rs[i].start == p }) {
        Some(i)
    } else {
        clicked_index(rs, p, end_marker, i + 1)
    }
}

/// The ranges after clicking `item`: the range it marks changes between
/// collapsed and expanded; with no such range nothing changes.
pub open spec fn update_by_item_spec(rs: Seq<FoldingRange>, item: FoldingDisplayItem) -> Seq<FoldingRange> {
    match clicked_index(rs, item.position, item.ty == FoldingDisplayType::UnfoldEnd, 0) {
        Some(k) => rs.update(k, FoldingRange { status: rs[k].status.clicked(), ..rs[k] }),
        None => rs,
    }
}

/// The status that `new` keeps: that of the first old range with the same
/// bounds, or its own.
pub open spec fn kept_status(old: Seq<FoldingRange>, new: FoldingRange, i: int) -> FoldingRangeStatus
    decreases old.len() - i,
{
    if i < 0 || i >= old.len() {
        new.status
    } else if old[i].start == new.start && old[i].end == new.end {
        old[i].status
    } else {
        kept_status(old, new, i + 1)
    }
}

/// Whether range `j` contains `p` and starts no earlier than every other
/// range that contains it, and is the first such.
pub open spec fn innermost(rs: Seq<FoldingRange>, p: FoldPosition, k: int) -> bool {
    &&& 0 <= k < rs.len()
    &&& rs[k].contains(p)
    &&& forall|j: int| 0 <= j < rs.len() && (#[trigger] rs[j]).contains(p) ==> pos_le(rs[j].start, rs[k].start)
}

proof fn lemma_clicked_index(rs: Seq<FoldingRange>, p: FoldPosition, end_marker: bool, i: int)
    requires
        0 <= i,
    ensures
        clicked_index(rs, p, end_marker, i) matches Some(k) ==> i <= k < rs.len() && (if end_marker {
            rs[k].end == p
        } else {
            rs[k].start == p
        }),
    decreases rs.len() - i,
{
    if i < rs.len() && !(if end_marker { rs[i].end == p } else { rs[i].start == p }) {
        lemma_clicked_index(rs, p, end_marker, i + 1);
    }
}

proof fn lemma_clicked_index_same(a: Seq<FoldingRange>, b: Seq<FoldingRange>, p: FoldPosition, end_marker: bool, i: int)
    requires
        0 <= i,
        a.len() == b.len(),
        forall|j: int| 0 <= j < a.len() ==> (#[trigger] a[j]).start == b[j].start && a[j].end == b[j].end,
    ensures
        clicked_index(a, p, end_marker, i) == clicked_index(b, p, end_marker, i),
    decreases a.len() - i,
{
    if i < a.len() {
        lemma_clicked_index_same(a, b, p, end_marker, i + 1);
    }
}

/// Clicking the same affordance twice, with no edit between, leaves the
/// folding ranges as they were: collapsing a range and expanding it again
/// restores the state that the layout is derived from.
pub proof fn lemma_fold_idempotent(rs: Seq<FoldingRange>, item: FoldingDisplayItem)
    ensures
        update_by_item_spec(update_by_item_spec(rs, item), item) == rs,
{
    let end_marker = item.ty == FoldingDisplayType::UnfoldEnd;
    let once = update_by_item_spec(rs, item);
    lemma_clicked_index(rs, item.position, end_marker, 0);
    assert forall|j: int| 0 <= j < rs.len() implies (#[trigger] once[j]).start == rs[j].start && once[j].end == rs[j].end by {
    }
    lemma_clicked_index_same(once, rs, item.position, end_marker, 0);
    match clicked_index(rs, item.position, end_marker, 0) {
        Some(k) => {
            assert(once[k].status.clicked() == rs[k].status);
            assert(update_by_item_spec(once, item) =~= rs);
        },
        None => {},
    }
}

impl FoldingRanges {
    /// Clicks the range that `item` marks; an item that marks no range is
    /// ignored.
    pub fn update_by_item(&mut self, item: FoldingDisplayItem)
        ensures
            final(self).0@ == update_by_item_spec(old(self).0@, item),
    {
        let end_marker = match item.ty {
            FoldingDisplayType::UnfoldEnd => true,
            _ => false,
        };
        let mut i: usize = 0;
        while i < self.0.len()
            invariant
                i <= self.0@.len(),
                self.0@ == old(self).0@,
                end_marker == (item.ty == FoldingDisplayType::UnfoldEnd),
                clicked_index(self.0@, item.position, end_marker, 0) == clicked_index(
                    self.0@,
                    item.position,
                    end_marker,
                    i as int,
                ),
            decreases self.0.len() - i,
        {
            let r = self.0[i];
            let hit = if end_marker { r.end == item.position } else { r.start == item.position };
            if hit {
                let mut changed = r;
                changed.status.click();
                self.0.set(i, changed);
                return;
            }
            i = i + 1;
        }
    }

    /// Replaces the ranges with `new`; a new range with the same bounds as
    /// an old one keeps the old one's status.
    pub fn update_ranges(&mut self, new: Vec<FoldingRange>)
        ensures
            final(self).0@.len() == new@.len(),
            forall|i: int|
                0 <= i < new@.len() ==> #[trigger] final(self).0@[i] == (FoldingRange {
                    status: kept_status(old(self).0@, new@[i], 0),
                    ..new@[i]
                }),
    {
        let mut out: Vec<FoldingRange> = Vec::new();
        let mut i: usize = 0;
        while i < new.len()
            invariant
                i <= new@.len(),
                out@.len() == i,
                forall|k: int|
                    0 <= k < i ==> #[trigger] out@[k] == (FoldingRange {
                        status: kept_status(self.0@, new@[k], 0),
                        ..new@[k]
                    }),
            decreases new.len() - i,
        {
            let n = new[i];
            let mut j: usize = 0;
            while j < self.0.len() && !(self.0[j].start == n.start && self.0[j].end == n.end)
                invariant
                    j <= self.0@.len(),
                    kept_status(self.0@, n, 0) == kept_status(self.0@, n, j as int),
                decreases self.0.len() - j,
            {
                j = j + 1;
            }
            let status = if j < self.0.len() { self.0[j].status } else { n.status };
            out.push(FoldingRange { status, ..n });
            i = i + 1;
        }
        self.0 = out;
    }

    /// Collapses the innermost range that contains `p`: of those that
    /// contain it, the one that starts last. Nothing changes when no range
    /// contains `p`.
    pub fn fold_by_position(&mut self, p: FoldPosition)
        ensures
            (exists|k: int| innermost(old(self).0@, p, k)) ==> exists|k: int|
                innermost(old(self).0@, p, k) && final(self).0@ == old(self).0@.update(
                    k,
                    FoldingRange { status: FoldingRangeStatus::Fold, ..old(self).0@[k] },
                ),
            !(exists|k: int| innermost(old(self).0@, p, k)) ==> final(self).0@ == old(self).0@,
    {
        let mut best: Option<usize> = None;
        let mut i: usize = 0;
        while i < self.0.len()
            invariant
                i <= self.0@.len(),
                best matches Some(b) ==> b < i && self.0@[b as int].contains(p) && forall|j: int|
                    0 <= j < i && (#[trigger] self.0@[j]).contains(p) ==> pos_le(self.0@[j].start, self.0@[b as int].start),
                best is None ==> forall|j: int| 0 <= j < i ==> !(#[trigger] self.0@[j]).contains(p),
            decreases self.0.len() - i,
        {
            let r = self.0[i];
            if pos_le_exec(r.start, p) && pos_le_exec(p, r.end) {
                match best {
                    Some(b) => {
                        if pos_le_exec(self.0[b].start, r.start) {
                            best = Some(i);
                        }
                    },
                    None => {
                        best = Some(i);
                    },
                }
            }
            i = i + 1;
        }
        match best {
            Some(b) => {
                let ghost before = self.0@;
                let r = self.0[b];
                self.0.set(b, FoldingRange { status: FoldingRangeStatus::Fold, ..r });
                proof {
                    assert(innermost(before, p, b as int));
                }
            },
            None => {
                proof {
                    assert forall|k: int| !innermost(self.0@, p, k) by {
                        if 0 <= k < self.0@.len() {
                            assert(!self.0@[k].contains(p));
                        }
                    }
                }
            },
        }
    }

    /// The collapsed ranges that start on `line` and end on a later line.
    pub fn get_folded_range_by_line(&self, line: usize) -> (r: Vec<FoldingRange>)
        ensures
            r@ == self.0@.filter(|x: FoldingRange| x.is_folded() && x.start.line == line && x.end.line > line),
            forall|j: int|
                0 <= j < r@.len() ==> self.0@.contains(#[trigger] r@[j]) && r@[j].is_folded() && r@[j].start.line
                    == line && r@[j].end.line > line,
            forall|j: int|
                0 <= j < self.0@.len() && (#[trigger] self.0@[j]).is_folded() && self.0@[j].start.line == line
                    && self.0@[j].end.line > line ==> r@.contains(self.0@[j]),
    {
        let mut r: Vec<FoldingRange> = Vec::new();
        let mut i: usize = 0;
        while i < self.0.len()
            invariant
                i <= self.0@.len(),
                r@ == self.0@.subrange(0, i as int).filter(
                    |x: FoldingRange| x.is_folded() && x.start.line == line && x.end.line > line,
                ),
            forall|j: int|
                0 <= j < r@.len() ==> self.0@.contains(#[trigger] r@[j]) && r@[j].is_folded() && r@[j].start.line
                    == line && r@[j].end.line > line,
            forall|j: int|
                0 <= j < i && (#[trigger] self.0@[j]).is_folded() && self.0@[j].start.line == line
                    && self.0@[j].end.line > line ==> r@.contains(self.0@[j]),
            decreases self.0.len() - i,
        {
            let x = self.0[i];
            proof {
                assert(self.0@.subrange(0, i + 1).drop_last() =~= self.0@.subrange(0, i as int));
                reveal(Seq::filter);
            }
            if x.status == FoldingRangeStatus::Fold && x.start.line == line && x.end.line > line {
                let ghost before = r@;
                r.push(x);
                proof {
                    assert(self.0@[i as int] == x);
                    assert forall|j: int| 0 <= j < r@.len() implies self.0@.contains(#[trigger] r@[j]) && r@[j].is_folded()
                        && r@[j].start.line == line && r@[j].end.line > line by {
                        if j < before.len() {
                            assert(r@[j] == before[j]);
                        }
                    }
                    assert(r@[before.len() as int] == x);
                    assert forall|j: int| 0 <= j < i + 1 && (#[trigger] self.0@[j]).is_folded() && self.0@[j].start.line == line
                        && self.0@[j].end.line > line implies r@.contains(self.0@[j]) by {
                        if j < i {
                            let k = choose|k: int| 0 <= k < before.len() && before[k] == self.0@[j];
                            assert(r@[k] == before[k]);
                        }
                    }
                }
            }
            i = i + 1;
        }
        proof {
            assert(self.0@.subrange(0, self.0@.len() as int) =~= self.0@);
        }
        r
    }

    /// A collapsed range holds `p` strictly between its bounds.
    pub open spec fn contain_position_spec(&self, p: FoldPosition) -> bool {
        exists|j: int|
            0 <= j < self.0@.len() && (#[trigger] self.0@[j]).is_folded() && pos_le(self.0@[j].start, p)
                && pos_le(p, self.0@[j].end) && self.0@[j].start != p && self.0@[j].end != p
    }

    pub fn contain_position(&self, p: FoldPosition) -> (r: bool)
        ensures
            r == self.contain_position_spec(p),
    {
        let mut i: usize = 0;
        while i < self.0.len()
            invariant
                i <= self.0@.len(),
                forall|j: int|
                    0 <= j < i ==> !((#[trigger] self.0@[j]).is_folded() && pos_le(self.0@[j].start, p)
                        && pos_le(p, self.0@[j].end) && self.0@[j].start != p && self.0@[j].end != p),
            decreases self.0.len() - i,
        {
            let x = self.0[i];
            if x.status == FoldingRangeStatus::Fold && pos_le_exec(x.start, p) && pos_le_exec(p, x.end)
                && x.start != p && x.end != p {
                return true;
            }
            i = i + 1;
        }
        false
    }

    /// One affordance for each fold boundary on a visible line: a collapsed
    /// range shows one at its start, an expanded one at its start and at
    /// its end. `visible_lines` lists the origin line of each screen row.
    pub fn to_display_items(&self, visible_lines: &Vec<usize>) -> (r: Vec<FoldingDisplayItem>)
        ensures
            forall|i: int|
                0 <= i < r@.len() ==> (#[trigger] r@[i]).row < visible_lines@.len() && visible_lines@[r@[i].row as int]
                    == r@[i].position.line,
            forall|i: int|
                0 <= i < r@.len() ==> item_of_some(self.0@, #[trigger] r@[i]),
            forall|j: int| 0 <= j < self.0@.len() ==> range_covered(#[trigger] self.0@[j], visible_lines@, visible_lines@.len() as int, r@),
    {
        let mut r: Vec<FoldingDisplayItem> = Vec::new();
        let mut i: usize = 0;
        while i < self.0.len()
            invariant
                i <= self.0@.len(),
                forall|k: int|
                    0 <= k < r@.len() ==> (#[trigger] r@[k]).row < visible_lines@.len() && visible_lines@[r@[k].row as int]
                        == r@[k].position.line,
                forall|k: int|
                    0 <= k < r@.len() ==> item_of_some(self.0@, #[trigger] r@[k]),
                forall|j: int| 0 <= j < i ==> range_covered(#[trigger] self.0@[j], visible_lines@, visible_lines@.len() as int, r@),
            decreases self.0.len() - i,
        {
            let x = self.0[i];
            let mut row: usize = 0;
            while row < visible_lines.len()
                invariant
                    i < self.0@.len(),
                    x == self.0@[i as int],
                    row <= visible_lines@.len(),
                    forall|k: int|
                        0 <= k < r@.len() ==> (#[trigger] r@[k]).row < visible_lines@.len() && visible_lines@[r@[k].row as int]
                            == r@[k].position.line,
                    forall|k: int|
                        0 <= k < r@.len() ==> item_of_some(self.0@, #[trigger] r@[k]),
                    forall|j: int| 0 <= j < i ==> range_covered(#[trigger] self.0@[j], visible_lines@, visible_lines@.len() as int, r@),
                    range_covered(x, visible_lines@, row as int, r@),
                decreases visible_lines.len() - row,
            {
                let l = visible_lines[row];
                let ghost before = r@;
                let ghost start_r = r@;
                if l == x.start.line {
                    let ty = match x.status {
                        FoldingRangeStatus::Fold => FoldingDisplayType::Folded,
                        FoldingRangeStatus::Unfold => FoldingDisplayType::UnfoldStart,
                    };
                    let item = FoldingDisplayItem { position: x.start, row, ty };
                    r.push(item);
                    proof {
                        assert(display_item_of(self.0@[i as int], item));
                        assert forall|k: int| 0 <= k < r@.len() implies item_of_some(self.0@, #[trigger] r@[k]) by {
                            if k < before.len() {
                                assert(r@[k] == before[k]);
                            }
                        }
                    }
                }
                let ghost before2 = r@;
                if l == x.end.line && x.status == FoldingRangeStatus::Unfold {
                    let item = FoldingDisplayItem { position: x.end, row, ty: FoldingDisplayType::UnfoldEnd };
                    r.push(item);
                    proof {
                        assert(display_item_of(self.0@[i as int], item));
                        assert forall|k: int| 0 <= k < r@.len() implies item_of_some(self.0@, #[trigger] r@[k]) by {
                            if k < before2.len() {
                                assert(r@[k] == before2[k]);
                            }
                        }
                    }
                }
                proof {
                    assert forall|k: int| 0 <= k < start_r.len() implies r@.contains(#[trigger] start_r[k]) by {
                        assert(r@[k] == start_r[k]);
                    }
                    assert forall|j: int| 0 <= j < i implies range_covered(#[trigger] self.0@[j], visible_lines@, visible_lines@.len() as int, r@) by {
                        lemma_covered_grows(self.0@[j], visible_lines@, visible_lines@.len() as int, start_r, r@);
                    }
                    lemma_covered_grows(x, visible_lines@, row as int, start_r, r@);
                    if l == x.start.line {
                        assert(before2[start_r.len() as int] == start_item(x, row));
                        assert(r@[start_r.len() as int] == start_item(x, row));
                        assert(r@.contains(start_item(x, row)));
                    }
                    if l == x.end.line && x.status == FoldingRangeStatus::Unfold {
                        assert(r@[r@.len() - 1] == end_item(x, row));
                    }
                    assert(range_covered(x, visible_lines@, row + 1, r@));
                }
                row = row + 1;
            }
            i = i + 1;
        }
        r
    }
}

/// The start affordance of range `x` on screen row `row`.
pub open spec fn start_item(x: FoldingRange, row: usize) -> FoldingDisplayItem {
    FoldingDisplayItem {
        position: x.start,
        row,
        ty: if x.is_folded() { FoldingDisplayType::Folded } else { FoldingDisplayType::UnfoldStart },
    }
}

/// The end affordance of range `x` on screen row `row`.
pub open spec fn end_item(x: FoldingRange, row: usize) -> FoldingDisplayItem {
    FoldingDisplayItem { position: x.end, row, ty: FoldingDisplayType::UnfoldEnd }
}

/// Every affordance of range `x` on the visible rows before `rows` is in
/// `items`.
pub open spec fn range_covered(x: FoldingRange, vis: Seq<usize>, rows: int, items: Seq<FoldingDisplayItem>) -> bool {
    forall|row: int|
        0 <= row < rows && row < vis.len() ==> {
            &&& #[trigger] vis[row] == x.start.line ==> items.contains(start_item(x, row as usize))
            &&& vis[row] == x.end.line && !x.is_folded() ==> items.contains(end_item(x, row as usize))
        }
}

proof fn lemma_covered_grows(x: FoldingRange, vis: Seq<usize>, rows: int, a: Seq<FoldingDisplayItem>, b: Seq<FoldingDisplayItem>)
    requires
        range_covered(x, vis, rows, a),
        forall|k: int| 0 <= k < a.len() ==> b.contains(#[trigger] a[k]),
    ensures
        range_covered(x, vis, rows, b),
{
    assert forall|row: int| 0 <= row < rows && row < vis.len() implies {
        &&& #[trigger] vis[row] == x.start.line ==> b.contains(start_item(x, row as usize))
        &&& vis[row] == x.end.line && !x.is_folded() ==> b.contains(end_item(x, row as usize))
    } by {
        if vis[row] == x.start.line {
            let k = choose|k: int| 0 <= k < a.len() && a[k] == start_item(x, row as usize);
            assert(b.contains(a[k]));
        }
        if vis[row] == x.end.line && !x.is_folded() {
            let k = choose|k: int| 0 <= k < a.len() && a[k] == end_item(x, row as usize);
            assert(b.contains(a[k]));
        }
    }
}

pub open spec fn item_of_some(rs: Seq<FoldingRange>, item: FoldingDisplayItem) -> bool {
    exists|j: int| 0 <= j < rs.len() && #[trigger] display_item_of(rs[j], item)
}

/// `item` is an affordance of range `x`.
pub open spec fn display_item_of(x: FoldingRange, item: FoldingDisplayItem) -> bool {
    ||| item.position == x.start && item.ty == (if x.is_folded() {
        FoldingDisplayType::Folded
    } else {
        FoldingDisplayType::UnfoldStart
    })
    ||| item.position == x.end && !x.is_folded() && item.ty == FoldingDisplayType::UnfoldEnd
}

} // verus!

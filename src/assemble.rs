//! Assembling the virtual insertions of one origin line: inlay hints,
//! completion previews, the input-method pre-edit and fold placeholders.
use vstd::prelude::*;
use vstd::string::StringExecFns;
use crate::error::LayoutError;
use crate::fold::{FoldPosition, FoldingRange, FoldingRanges, pos_le, pos_le_exec};
use crate::phantom::{
    hide_end, lemma_shift_prefix_push, phantoms_wf, shift_prefix, text_width, width, CursorAffinity,
    PhantomText, PhantomTextKind,
};
use crate::phantom_line::PhantomTextLine;
use vstd::utf8::encode_utf8;

verus! {

/// An inlay hint anchored at buffer offset `offset`, at `position`.
#[derive(Clone, Debug)]
pub struct InlayHintItem {
    pub offset: usize,
    pub position: FoldPosition,
    pub label: String,
    pub affinity: Option<CursorAffinity>,
}

/// A preview text (completion lens, inline completion, pre-edit) at
/// (`line`, `col`).
#[derive(Clone, Debug)]
pub struct LinePreview {
    pub line: usize,
    pub col: usize,
    pub text: String,
}

/// Which kinds of virtual text are shown.
#[derive(Clone, Copy, Debug, PartialEq, Eq, Structural, Hash)]
pub struct PhantomConfig {
    pub enable_inlay_hints: bool,
    pub enable_completion_lens: bool,
    pub enable_inline_completion: bool,
}

/// The text shown for an inlay hint label: a label that starts with `:`
/// gets a space after it; one that ends with `:` gets a space on both
/// sides; any other a space before it.
pub open spec fn padded_label(label: Seq<char>) -> Seq<char> {
    let starts = label.len() > 0 && label[0] == ':';
    let ends = label.len() > 0 && label.last() == ':';
    if starts {
        label + seq![' ']
    } else if ends {
        seq![' '] + label + seq![' ']
    } else {
        seq![' '] + label
    }
}

pub fn pad_hint_label(label: &String) -> (r: String)
    ensures
        r@ == padded_label(label@),
{
    let s = label.as_str();
    let n = s.unicode_len();
    let starts = n > 0 && s.get_char(0) == ':';
    let ends = n > 0 && s.get_char(n - 1) == ':';
    proof {
        reveal_strlit(" ");
    }
    if starts {
        label.clone().concat(" ")
    } else if ends {
        String::from_str(" ").concat(s).concat(" ")
    } else {
        String::from_str(" ").concat(s)
    }
}

/// What a phantom shows, and where.
pub open spec fn view_of(p: PhantomText) -> (PhantomTextKind, usize, Seq<char>, Option<CursorAffinity>) {
    (p.kind, p.col, p.text@, p.affinity)
}

/// A piece is kept when it shows text and starts within `limit`.
pub open spec fn kept(p: PhantomText, limit: int) -> bool {
    width(p) > 0 && p.col <= limit
}

/// The column up to which pieces are kept: the placeholder's, when it is
/// used, else the line's end.
pub open spec fn piece_limit(origin_text_len: usize, fold: Option<PhantomText>) -> int {
    match fold {
        Some(f) => if f.col <= origin_text_len && width(f) > 0 { f.col as int } else { origin_text_len as int },
        None => origin_text_len as int,
    }
}

/// The total width of the phantoms' texts.
pub open spec fn widths_sum(ps: Seq<PhantomText>) -> int
    decreases ps.len(),
{
    if ps.len() == 0 {
        0
    } else {
        widths_sum(ps.drop_last()) + width(ps.last())
    }
}

/// The total width of the texts of piece views.
pub open spec fn views_width(vs: Seq<(PhantomTextKind, usize, Seq<char>, Option<CursorAffinity>)>) -> int
    decreases vs.len(),
{
    if vs.len() == 0 {
        0
    } else {
        views_width(vs.drop_last()) + encode_utf8(vs.last().2).len() as usize as int
    }
}

/// The width of a fold placeholder's text, `...`.
pub open spec fn placeholder_width() -> int {
    encode_utf8(seq!['.', '.', '.']).len() as usize as int
}

pub proof fn lemma_widths_nonneg(ps: Seq<PhantomText>)
    ensures
        widths_sum(ps) >= 0,
    decreases ps.len(),
{
    if ps.len() > 0 {
        lemma_widths_nonneg(ps.drop_last());
    }
}

/// Phantoms move the text after them right by at most their widths.
pub proof fn lemma_shift_le_widths(ps: Seq<PhantomText>)
    ensures
        shift_prefix(ps, ps.len() as int) <= widths_sum(ps),
    decreases ps.len(),
{
    if ps.len() > 0 {
        let d = ps.drop_last();
        lemma_shift_le_widths(d);
        crate::phantom::lemma_shift_prefix_push(d, ps.last(), d.len() as int);
        assert(d.push(ps.last()) =~= ps);
    }
}

pub proof fn lemma_widths_insert(s: Seq<PhantomText>, k: int, p: PhantomText)
    requires
        0 <= k <= s.len(),
    ensures
        widths_sum(s.insert(k, p)) == widths_sum(s) + width(p),
    decreases s.len(),
{
    if k == s.len() {
        assert(s.insert(k, p).drop_last() =~= s);
    } else {
        let t = s.drop_last();
        lemma_widths_insert(t, k, p);
        assert(s.insert(k, p).drop_last() =~= t.insert(k, p));
        assert(s.insert(k, p).last() == s.last());
    }
}

pub proof fn lemma_widths_prefix(s: Seq<PhantomText>, j: int)
    requires
        0 <= j <= s.len(),
    ensures
        widths_sum(s.subrange(0, j)) <= widths_sum(s),
    decreases s.len(),
{
    if j < s.len() {
        lemma_widths_prefix(s.drop_last(), j);
        assert(s.drop_last().subrange(0, j) =~= s.subrange(0, j));
    } else {
        assert(s.subrange(0, j) =~= s);
    }
}

pub proof fn lemma_widths_views(ps: Seq<PhantomText>)
    ensures
        widths_sum(ps) == views_width(ps.map_values(|p: PhantomText| view_of(p))),
    decreases ps.len(),
{
    if ps.len() > 0 {
        lemma_widths_views(ps.drop_last());
        assert(ps.map_values(|p: PhantomText| view_of(p)).drop_last() =~= ps.drop_last().map_values(|p: PhantomText| view_of(p)));
    }
}

pub proof fn lemma_encode_len(chars: Seq<char>)
    ensures
        chars.len() > 0 ==> encode_utf8(chars).len() >= 1,
        encode_utf8(chars).len() <= 4 * chars.len(),
    decreases chars.len(),
{
    if chars.len() > 0 {
        lemma_encode_len(chars.drop_first());
        assert(1 <= vstd::utf8::encode_scalar(chars[0] as u32).len() <= 4);
    }
}

/// A collapsed range that starts on `line` and ends on a later one.
pub open spec fn folded_on(x: FoldingRange, line: usize) -> bool {
    x.is_folded() && x.start.line == line && x.end.line > line
}

/// The width of an optional fold placeholder.
pub open spec fn fold_width(fold: Option<PhantomText>) -> int {
    match fold {
        Some(f) => width(f),
        None => 0,
    }
}

/// The total width of the pieces, or `None` when it does not fit.
fn pieces_width(ps: &Vec<PhantomText>) -> (r: Option<usize>)
    ensures
        r matches Some(t) ==> t == widths_sum(ps@),
        r is None ==> widths_sum(ps@) > usize::MAX,
{
    let mut t: usize = 0;
    let mut i: usize = 0;
    while i < ps.len()
        invariant
            i <= ps@.len(),
            t == widths_sum(ps@.subrange(0, i as int)),
        decreases ps.len() - i,
    {
        proof {
            assert(ps@.subrange(0, i + 1).drop_last() =~= ps@.subrange(0, i as int));
        }
        let w = text_width(&ps[i]);
        if t as u128 + w as u128 > usize::MAX as u128 {
            proof {
                lemma_widths_prefix(ps@, i + 1);
            }
            return None;
        }
        t = t + w;
        i = i + 1;
    }
    proof {
        assert(ps@.subrange(0, i as int) =~= ps@);
    }
    Some(t)
}

/// The phantoms, in order, are plain insertions on `line` within the first
/// `limit` columns, each showing some text.
pub open spec fn sorted_pieces(ps: Seq<PhantomText>, line: usize, limit: int) -> bool {
    &&& forall|i: int, j: int| 0 <= i < j < ps.len() ==> (#[trigger] ps[i]).col <= (#[trigger] ps[j]).col
    &&& forall|i: int|
        0 <= i < ps.len() ==> {
            &&& width(#[trigger] ps[i]) > 0
            &&& ps[i].col <= limit
            &&& ps[i].hide_len == 0
            &&& ps[i].merge_col == ps[i].col
            &&& ps[i].line == line
            &&& !ps[i].is_fold()
        }
}

/// Inserts `p` after every phantom whose column is at most its own.
fn insert_by_col(ps: &mut Vec<PhantomText>, p: PhantomText, line: usize, limit: usize)
    requires
        sorted_pieces(old(ps)@, line, limit as int),
        width(p) > 0,
        p.col <= limit,
        p.hide_len == 0,
        p.merge_col == p.col,
        p.line == line,
        !p.is_fold(),
    ensures
        sorted_pieces(final(ps)@, line, limit as int),
        final(ps)@.len() == old(ps)@.len() + 1,
        forall|j: int| 0 <= j < old(ps)@.len() ==> final(ps)@.contains(#[trigger] old(ps)@[j]),
        final(ps)@.contains(p),
        forall|j: int| 0 <= j < final(ps)@.len() ==> #[trigger] final(ps)@[j] == p || old(ps)@.contains(final(ps)@[j]),
        widths_sum(final(ps)@) == widths_sum(old(ps)@) + width(p),
{
    let mut k: usize = 0;
    while k < ps.len() && ps[k].col <= p.col
        invariant
            k <= ps@.len(),
            forall|i: int| 0 <= i < k ==> (#[trigger] ps@[i]).col <= p.col,
        decreases ps.len() - k,
    {
        k = k + 1;
    }
    let ghost before = ps@;
    ps.insert(k, p);
    proof {
        lemma_widths_insert(before, k as int, p);
        assert forall|i: int, j: int| 0 <= i < j < ps@.len() implies (#[trigger] ps@[i]).col <= (#[trigger] ps@[j]).col by {
            if j < k {
            } else if j == k {
            } else if i < k {
                assert(ps@[j] == before[j - 1]);
                if k < before.len() {
                    assert(before[k as int].col <= before[j - 1].col);
                }
            } else if i == k {
                assert(ps@[j] == before[j - 1]);
                assert(before[k as int].col > p.col);
                if k < j - 1 {
                    assert(before[k as int].col <= before[j - 1].col);
                }
            } else {
                assert(ps@[i] == before[i - 1]);
                assert(ps@[j] == before[j - 1]);
            }
        }
        assert(ps@[k as int] == p);
        assert forall|j: int| 0 <= j < before.len() implies ps@.contains(#[trigger] before[j]) by {
            if j < k {
                assert(ps@[j] == before[j]);
            } else {
                assert(ps@[j + 1] == before[j]);
            }
        }
        assert forall|j: int| 0 <= j < ps@.len() implies #[trigger] ps@[j] == p || before.contains(ps@[j]) by {
            if j < k {
                assert(ps@[j] == before[j]);
            } else if j > k {
                assert(ps@[j] == before[j - 1]);
            }
        }
        assert forall|i: int| 0 <= i < ps@.len() implies {
            &&& width(#[trigger] ps@[i]) > 0
            &&& ps@[i].col <= limit
            &&& ps@[i].hide_len == 0
            &&& ps@[i].merge_col == ps@[i].col
            &&& ps@[i].line == line
            &&& !ps@[i].is_fold()
        } by {
            if i > k {
                assert(ps@[i] == before[i - 1]);
            }
        }
    }
}

/// Some kept piece among the first `upto` shows `v`.
pub open spec fn from_piece(pieces: Seq<PhantomText>, upto: int, limit: int, v: (PhantomTextKind, usize, Seq<char>, Option<CursorAffinity>)) -> bool {
    exists|k: int| 0 <= k < upto && 0 <= k < pieces.len() && kept(#[trigger] pieces[k], limit) && view_of(pieces[k]) == v
}

/// Some phantom of `ps` shows `v`.
pub open spec fn shown_in(ps: Seq<PhantomText>, v: (PhantomTextKind, usize, Seq<char>, Option<CursorAffinity>)) -> bool {
    exists|j: int| 0 <= j < ps.len() && view_of(#[trigger] ps[j]) == v
}

/// The kept pieces, ordered by column; equal columns keep their order.
#[verifier::rlimit(50)]
fn sort_pieces(pieces: &Vec<PhantomText>, line: usize, limit: usize) -> (sorted: Vec<PhantomText>)
    requires
        forall|j: int| 0 <= j < pieces@.len() ==> (#[trigger] pieces@[j]).hide_len == 0 && !pieces@[j].is_fold(),
    ensures
        sorted_pieces(sorted@, line, limit as int),
        forall|k: int|
            0 <= k < pieces@.len() && kept(#[trigger] pieces@[k], limit as int) ==> shown_in(sorted@, view_of(pieces@[k])),
        forall|j: int| 0 <= j < sorted@.len() ==> from_piece(pieces@, pieces@.len() as int, limit as int, view_of(#[trigger] sorted@[j])),
        widths_sum(sorted@) <= widths_sum(pieces@),
{
    let mut sorted: Vec<PhantomText> = Vec::new();
    let mut i: usize = 0;
    while i < pieces.len()
        invariant
            i <= pieces@.len(),
            forall|j: int| 0 <= j < pieces@.len() ==> (#[trigger] pieces@[j]).hide_len == 0 && !pieces@[j].is_fold(),
            sorted_pieces(sorted@, line, limit as int),
            forall|k: int| 0 <= k < i && kept(#[trigger] pieces@[k], limit as int) ==> shown_in(sorted@, view_of(pieces@[k])),
            forall|j: int| 0 <= j < sorted@.len() ==> from_piece(pieces@, i as int, limit as int, view_of(#[trigger] sorted@[j])),
            widths_sum(sorted@) <= widths_sum(pieces@.subrange(0, i as int)),
        decreases pieces.len() - i,
    {
        let p = &pieces[i];
        let ghost before = sorted@;
        proof {
            assert(pieces@.subrange(0, i + 1).drop_last() =~= pieces@.subrange(0, i as int));
            lemma_widths_nonneg(pieces@.subrange(0, i as int));
        }
        if p.col <= limit && text_width(p) > 0 {
            let q = PhantomText {
                kind: p.kind,
                line,
                col: p.col,
                merge_col: p.col,
                final_col: 0,
                hide_len: 0,
                text: p.text.clone(),
                affinity: p.affinity,
            };
            insert_by_col(&mut sorted, q, line, limit);
            proof {
                assert(view_of(q) == view_of(pieces@[i as int]));
                assert forall|k: int| 0 <= k < i + 1 && kept(#[trigger] pieces@[k], limit as int) implies shown_in(sorted@, view_of(pieces@[k])) by {
                    if k < i {
                        let j0 = choose|j: int| 0 <= j < before.len() && view_of(#[trigger] before[j]) == view_of(pieces@[k]);
                        assert(sorted@.contains(before[j0]));
                        let j1 = choose|j1: int| 0 <= j1 < sorted@.len() && sorted@[j1] == before[j0];
                        assert(view_of(sorted@[j1]) == view_of(pieces@[k]));
                    } else {
                        assert(sorted@.contains(q));
                        let j1 = choose|j1: int| 0 <= j1 < sorted@.len() && sorted@[j1] == q;
                        assert(view_of(sorted@[j1]) == view_of(pieces@[k]));
                    }
                }
                assert forall|j: int| 0 <= j < sorted@.len() implies from_piece(pieces@, i + 1, limit as int, view_of(#[trigger] sorted@[j])) by {
                    if sorted@[j] == q {
                        assert(kept(pieces@[i as int], limit as int));
                    } else {
                        assert(before.contains(sorted@[j]));
                        let j0 = choose|j0: int| 0 <= j0 < before.len() && before[j0] == sorted@[j];
                        assert(from_piece(pieces@, i as int, limit as int, view_of(before[j0])));
                        let k = choose|k: int| 0 <= k < i && 0 <= k < pieces@.len() && kept(#[trigger] pieces@[k], limit as int) && view_of(pieces@[k]) == view_of(before[j0]);
                        assert(kept(pieces@[k], limit as int));
                    }
                }
            }
        } else {
            proof {
                assert forall|j: int| 0 <= j < sorted@.len() implies from_piece(pieces@, i + 1, limit as int, view_of(#[trigger] sorted@[j])) by {
                    assert(from_piece(pieces@, i as int, limit as int, view_of(sorted@[j])));
                    let k = choose|k: int| 0 <= k < i && 0 <= k < pieces@.len() && kept(#[trigger] pieces@[k], limit as int) && view_of(pieces@[k]) == view_of(sorted@[j]);
                    assert(kept(pieces@[k], limit as int));
                }
            }
        }
        i = i + 1;
    }
    proof {
        assert(pieces@.subrange(0, pieces@.len() as int) =~= pieces@);
    }
    sorted
}

/// The phantom line of `pieces` (plain insertions) and an optional fold
/// placeholder: the pieces that show text and lie within the line, before
/// the placeholder's column when there is one, ordered by column (equal
/// columns keep their order), then the placeholder, which hides the rest of
/// the line; final columns follow from the widths.
#[verifier::rlimit(50)]
pub fn build_phantom_line(
    line: usize,
    origin_text_len: usize,
    offset_of_line: usize,
    pieces: Vec<PhantomText>,
    fold: Option<PhantomText>,
) -> (r: Result<PhantomTextLine, LayoutError>)
    requires
        forall|i: int| 0 <= i < pieces@.len() ==> (#[trigger] pieces@[i]).hide_len == 0 && !pieces@[i].is_fold(),
        fold matches Some(f) ==> f.is_fold(),
    ensures
        r is Err ==> offset_of_line + origin_text_len > usize::MAX || origin_text_len + widths_sum(pieces@)
            + fold_width(fold) > usize::MAX,
        r matches Ok(pl) ==> {
            &&& pl.wf()
            &&& pl.line == line
            &&& pl.origin_text_len == origin_text_len
            &&& pl.offset_of_line == offset_of_line
            &&& pl.folded_line_spec() == match fold {
                Some(f) => if f.col <= origin_text_len && width(f) > 0 {
                    match f.kind {
                        PhantomTextKind::LineFoldedRang { next_line, .. } => Some(next_line),
                        _ => None,
                    }
                } else {
                    None
                },
                None => None,
            }
            &&& piece_limit(origin_text_len, fold) == shown_limit(pl)
            &&& forall|i: int|
                0 <= i < pieces@.len() && kept(#[trigger] pieces@[i], piece_limit(origin_text_len, fold))
                    ==> shown_in(pl.texts@, view_of(pieces@[i]))
            &&& forall|j: int|
                0 <= j < pl.texts@.len() && !(#[trigger] pl.texts@[j]).is_fold() ==> from_piece(
                    pieces@,
                    pieces@.len() as int,
                    piece_limit(origin_text_len, fold),
                    view_of(pl.texts@[j]),
                )
        },
{
    if offset_of_line as u128 + origin_text_len as u128 > usize::MAX as u128 {
        return Err(LayoutError::InvalidInterval);
    }
    let total = match pieces_width(&pieces) {
        Some(t) => t,
        None => {
            return Err(LayoutError::InvalidInterval);
        },
    };
    let fw: usize = match &fold {
        Some(f) => text_width(f),
        None => 0,
    };
    if origin_text_len as u128 + total as u128 + fw as u128 > usize::MAX as u128 {
        return Err(LayoutError::InvalidInterval);
    }
    let fold_ok = match &fold {
        Some(f) => f.col <= origin_text_len && text_width(f) > 0,
        None => false,
    };
    let limit = match &fold {
        Some(f) => if fold_ok { f.col } else { origin_text_len },
        None => origin_text_len,
    };
    let sorted = sort_pieces(&pieces, line, limit);
    // final columns
    let mut texts: Vec<PhantomText> = Vec::new();
    let mut shift: usize = 0;
    let mut j: usize = 0;
    while j < sorted.len()
        invariant
            j <= sorted@.len(),
            limit <= origin_text_len,
            sorted_pieces(sorted@, line, limit as int),
            texts@.len() == j,
            shift == shift_prefix(texts@, j as int),
            shift == widths_sum(sorted@.subrange(0, j as int)),
            origin_text_len + widths_sum(sorted@) + fw <= usize::MAX,
            fw == fold_width(fold),
            fold_ok ==> (fold matches Some(f) && f.col <= origin_text_len),
            forall|k: int|
                0 <= k < j ==> {
                    &&& (#[trigger] texts@[k]).final_col == texts@[k].merge_col + shift_prefix(texts@, k)
                    &&& texts@[k] == (PhantomText { final_col: texts@[k].final_col, ..sorted@[k] })
                },
        decreases sorted.len() - j,
    {
        let p = &sorted[j];
        let w = text_width(p);
        proof {
            assert(sorted@.subrange(0, j + 1).drop_last() =~= sorted@.subrange(0, j as int));
            lemma_widths_prefix(sorted@, j + 1);
        }
        let q = PhantomText {
            kind: p.kind,
            line: p.line,
            col: p.col,
            merge_col: p.merge_col,
            final_col: p.col + shift,
            hide_len: 0,
            text: p.text.clone(),
            affinity: p.affinity,
        };
        let ghost before = texts@;
        texts.push(q);
        proof {
            lemma_shift_prefix_push(before, q, j as int);
            assert forall|k: int| 0 <= k < j implies shift_prefix(texts@, k) == shift_prefix(before, k) by {
                lemma_shift_prefix_push(before, q, k);
            }
            assert(texts@[j as int] == q);
        }
        shift = shift + w;
        j = j + 1;
    }
    proof {
        assert(sorted@.subrange(0, sorted@.len() as int) =~= sorted@);
    }
    let ghost plain = texts@;
    if fold_ok {
        let f = fold.unwrap();
        let w = text_width(&f);
        let q = PhantomText {
            kind: f.kind,
            line,
            col: f.col,
            merge_col: f.col,
            final_col: f.col + shift,
            hide_len: origin_text_len - f.col,
            text: f.text,
            affinity: f.affinity,
        };
        proof {
            lemma_shift_prefix_push(plain, q, plain.len() as int);
            assert forall|k: int| 0 <= k < plain.len() implies shift_prefix(plain.push(q), k) == shift_prefix(plain, k) by {
                lemma_shift_prefix_push(plain, q, k);
            }
        }
        texts.push(q);
    }
    let r = PhantomTextLine { line, origin_text_len, offset_of_line, texts };
    proof {
        let ps = r.texts@;
        let n = ps.len();
        assert forall|a: int, b: int| 0 <= a < b < n implies hide_end(#[trigger] ps[a]) <= #[trigger] ps[b].merge_col by {
            assert(sorted@[a].col <= limit);
            if b < plain.len() {
                assert(sorted@[a].col <= sorted@[b].col);
            }
        }
        assert forall|k: int| 0 <= k < n implies {
            &&& width(#[trigger] ps[k]) > 0
            &&& hide_end(ps[k]) <= origin_text_len
            &&& ps[k].final_col == ps[k].merge_col + shift_prefix(ps, k)
        } by {
            if k < plain.len() {
                assert(ps[k] == plain[k]);
            }
        }
        assert forall|k: int| 0 <= k < n implies {
            &&& (#[trigger] ps[k]).line == r.line
            &&& ps[k].merge_col == ps[k].col
            &&& ps[k].is_fold() ==> k == n - 1 && hide_end(ps[k]) == r.origin_text_len
        } by {
            if k < plain.len() {
                assert(ps[k] == plain[k]);
            }
        }
        if n > 0 {
            assert(ps.last() == ps[n - 1]);
            if !fold_ok {
                assert(ps[n - 1] == plain[n - 1]);
            }
        }
        assert(phantoms_wf(ps, origin_text_len as int));
        assert(limit == piece_limit(origin_text_len, fold));
        assert forall|i: int|
            0 <= i < pieces@.len() && kept(#[trigger] pieces@[i], piece_limit(origin_text_len, fold)) implies shown_in(ps, view_of(pieces@[i])) by {
            let j = choose|j: int| 0 <= j < sorted@.len() && view_of(#[trigger] sorted@[j]) == view_of(pieces@[i]);
            assert(ps[j] == plain[j]);
            assert(view_of(ps[j]) == view_of(sorted@[j]));
        }
        assert forall|j: int| 0 <= j < ps.len() && !(#[trigger] ps[j]).is_fold() implies from_piece(
            pieces@,
            pieces@.len() as int,
            piece_limit(origin_text_len, fold),
            view_of(ps[j]),
        ) by {
            assert(j < plain.len());
            assert(ps[j] == plain[j]);
            assert(view_of(ps[j]) == view_of(sorted@[j]));
            assert(from_piece(pieces@, pieces@.len() as int, limit as int, view_of(sorted@[j])));
        }
    }
    Ok(r)
}

/// The collapsed range that a placeholder on `line` stands for: of those
/// that start on the line and end on a later one, the one that ends last.
fn outermost_fold(folded: &Vec<FoldingRange>) -> (r: Option<FoldingRange>)
    ensures
        r matches Some(x) ==> folded@.contains(x) && forall|i: int|
            0 <= i < folded@.len() ==> pos_le(#[trigger] folded@[i].end, x.end),
        r is None ==> folded@.len() == 0,
{
    if folded.len() == 0 {
        return None;
    }
    let mut best = folded[0];
    let mut i: usize = 1;
    while i < folded.len()
        invariant
            1 <= i <= folded@.len(),
            folded@.contains(best),
            forall|k: int| 0 <= k < i ==> pos_le(#[trigger] folded@[k].end, best.end),
        decreases folded.len() - i,
    {
        let x = folded[i];
        if pos_le_exec(best.end, x.end) {
            best = x;
            proof {
                assert(folded@[i as int] == x);
            }
        }
        i = i + 1;
    }
    Some(best)
}

pub open spec fn preview_shown(p: LinePreview, enabled: bool, line: usize, folding: FoldingRanges) -> bool {
    enabled && p.line == line && !folding.contain_position_spec(FoldPosition { line: p.line, character: p.col })
}

/// What a preview adds to `line`: nothing, or its text at its column.
pub open spec fn preview_views(
    p: Option<LinePreview>,
    enabled: bool,
    line: usize,
    folding: FoldingRanges,
    kind: PhantomTextKind,
    affinity: Option<CursorAffinity>,
) -> Seq<(PhantomTextKind, usize, Seq<char>, Option<CursorAffinity>)> {
    match p {
        Some(c) => if preview_shown(c, enabled, line, folding) {
            seq![(kind, c.col, c.text@, affinity)]
        } else {
            seq![]
        },
        None => seq![],
    }
}

/// An inlay hint shows on the line `[line_start, line_start + line_len)`
/// when it is anchored in it and no collapsed range hides it.
pub open spec fn hint_shown(h: InlayHintItem, line_start: usize, line_len: usize, folding: FoldingRanges) -> bool {
    line_start <= h.offset && h.offset - line_start < line_len && !folding.contain_position_spec(h.position)
}

/// The hints that show on the line, as they show, in order.
pub open spec fn hint_views(hints: Seq<InlayHintItem>, line_start: usize, line_len: usize, folding: FoldingRanges) -> Seq<
    (PhantomTextKind, usize, Seq<char>, Option<CursorAffinity>),
>
    decreases hints.len(),
{
    if hints.len() == 0 {
        seq![]
    } else {
        let rest = hint_views(hints.drop_last(), line_start, line_len, folding);
        let h = hints.last();
        if hint_shown(h, line_start, line_len, folding) {
            rest.push((PhantomTextKind::InlayHint, (h.offset - line_start) as usize, padded_label(h.label@), h.affinity))
        } else {
            rest
        }
    }
}

/// Everything but the fold placeholder that line `line` shows, in the
/// order it is gathered: hints, completion lens, inline completion,
/// pre-edit.
pub open spec fn piece_views(
    line: usize,
    line_start: usize,
    line_len: usize,
    config: PhantomConfig,
    hints: Seq<InlayHintItem>,
    completion_lens: Option<LinePreview>,
    inline_completion: Option<LinePreview>,
    preedit: Option<LinePreview>,
    folding: FoldingRanges,
) -> Seq<(PhantomTextKind, usize, Seq<char>, Option<CursorAffinity>)> {
    (if config.enable_inlay_hints { hint_views(hints, line_start, line_len, folding) } else { seq![] })
        + preview_views(completion_lens, config.enable_completion_lens, line, folding, PhantomTextKind::Completion, Some(CursorAffinity::Backward))
        + preview_views(inline_completion, config.enable_inline_completion, line, folding, PhantomTextKind::Completion, Some(CursorAffinity::Backward))
        + preview_views(preedit, true, line, folding, PhantomTextKind::Preedit, None)
}

/// A preview at (`p.line`, `p.col`) shows on `line` unless a collapsed
/// range of the line hides it.
fn preview_piece(
    p: &Option<LinePreview>,
    enabled: bool,
    line: usize,
    folding: &FoldingRanges,
    kind: PhantomTextKind,
    affinity: Option<CursorAffinity>,
) -> (r: Option<PhantomText>)
    requires
        !(kind is LineFoldedRang),
    ensures
        r matches Some(q) ==> q.hide_len == 0 && !q.is_fold() && q.kind == kind && q.line == line,
        match r {
            Some(q) => preview_views(*p, enabled, line, *folding, kind, affinity) == seq![view_of(q)],
            None => preview_views(*p, enabled, line, *folding, kind, affinity) == Seq::<(PhantomTextKind, usize, Seq<char>, Option<CursorAffinity>)>::empty(),
        },
{
    match p {
        Some(c) => {
            if enabled && c.line == line && !folding.contain_position(FoldPosition { line: c.line, character: c.col }) {
                Some(
                    PhantomText {
                        kind,
                        line,
                        col: c.col,
                        merge_col: c.col,
                        final_col: c.col,
                        hide_len: 0,
                        text: c.text.clone(),
                        affinity,
                    },
                )
            } else {
                None
            }
        },
        None => None,
    }
}

/// The pieces that line `line` shows besides the fold placeholder.
fn collect_pieces(
    line: usize,
    start_offset: usize,
    line_len: usize,
    config: &PhantomConfig,
    hints: &Vec<InlayHintItem>,
    completion_lens: &Option<LinePreview>,
    inline_completion: &Option<LinePreview>,
    preedit: &Option<LinePreview>,
    folding: &FoldingRanges,
) -> (pieces: Vec<PhantomText>)
    ensures
        forall|j: int| 0 <= j < pieces@.len() ==> (#[trigger] pieces@[j]).hide_len == 0 && !pieces@[j].is_fold(),
        pieces@.map_values(|p: PhantomText| view_of(p)) == piece_views(
            line,
            start_offset,
            line_len,
            *config,
            hints@,
            *completion_lens,
            *inline_completion,
            *preedit,
            *folding,
        ),
{
    let mut pieces: Vec<PhantomText> = Vec::new();
    if config.enable_inlay_hints {
        let mut i: usize = 0;
        while i < hints.len()
            invariant
                i <= hints@.len(),
                forall|j: int| 0 <= j < pieces@.len() ==> (#[trigger] pieces@[j]).hide_len == 0 && !pieces@[j].is_fold(),
                pieces@.map_values(|p: PhantomText| view_of(p)) == hint_views(hints@.subrange(0, i as int), start_offset, line_len, *folding),
            decreases hints.len() - i,
        {
            let h = &hints[i];
            let ghost before = pieces@;
            proof {
                assert(hints@.subrange(0, i + 1).drop_last() =~= hints@.subrange(0, i as int));
                assert(hints@.subrange(0, i + 1).last() == hints@[i as int]);
            }
            if start_offset <= h.offset && h.offset - start_offset < line_len && !folding.contain_position(h.position) {
                let col = h.offset - start_offset;
                let q = PhantomText {
                    kind: PhantomTextKind::InlayHint,
                    line,
                    col,
                    merge_col: col,
                    final_col: col,
                    hide_len: 0,
                    text: pad_hint_label(&h.label),
                    affinity: h.affinity,
                };
                pieces.push(q);
                proof {
                    assert(pieces@.map_values(|p: PhantomText| view_of(p)) =~= before.map_values(|p: PhantomText| view_of(p)).push(view_of(q)));
                }
            }
            i = i + 1;
        }
        proof {
            assert(hints@.subrange(0, hints@.len() as int) =~= hints@);
        }
    }
    let ghost hint_part = pieces@;
    let lens = preview_piece(
        completion_lens,
        config.enable_completion_lens,
        line,
        folding,
        PhantomTextKind::Completion,
        Some(CursorAffinity::Backward),
    );
    if let Some(q) = lens {
        pieces.push(q);
    }
    let ghost lens_part = pieces@;
    let inline = preview_piece(
        inline_completion,
        config.enable_inline_completion,
        line,
        folding,
        PhantomTextKind::Completion,
        Some(CursorAffinity::Backward),
    );
    if let Some(q) = inline {
        pieces.push(q);
    }
    let ghost inline_part = pieces@;
    let pre = preview_piece(preedit, true, line, folding, PhantomTextKind::Preedit, None);
    if let Some(q) = pre {
        pieces.push(q);
    }
    proof {
        let f = |p: PhantomText| view_of(p);
        assert(lens_part.map_values(f) =~= hint_part.map_values(f) + preview_views(*completion_lens, config.enable_completion_lens, line, *folding, PhantomTextKind::Completion, Some(CursorAffinity::Backward)));
        assert(inline_part.map_values(f) =~= lens_part.map_values(f) + preview_views(*inline_completion, config.enable_inline_completion, line, *folding, PhantomTextKind::Completion, Some(CursorAffinity::Backward)));
        assert(pieces@.map_values(f) =~= inline_part.map_values(f) + preview_views(*preedit, true, line, *folding, PhantomTextKind::Preedit, None));
        if !config.enable_inlay_hints {
            assert(hint_part.map_values(f) =~= Seq::<(PhantomTextKind, usize, Seq<char>, Option<CursorAffinity>)>::empty());
        }
    }
    pieces
}

/// The column up to which a phantom line shows its pieces: that of its
/// fold placeholder, or the end of the line.
pub open spec fn shown_limit(pl: PhantomTextLine) -> int {
    if pl.texts@.len() > 0 && pl.texts@.last().is_fold() {
        pl.texts@.last().col as int
    } else {
        pl.origin_text_len as int
    }
}

/// A piece view is kept when it shows text and starts within `limit`.
pub open spec fn view_kept(v: (PhantomTextKind, usize, Seq<char>, Option<CursorAffinity>), limit: int) -> bool {
    encode_utf8(v.2).len() as usize > 0 && v.1 <= limit
}

/// What the phantom line of origin line `line` holds: its phantoms are
/// well formed, the pieces that show there appear and nothing else does
/// besides the fold placeholder, and the placeholder stands for the
/// outermost collapsed range that starts on the line.
pub open spec fn phantom_line_of(
    pl: PhantomTextLine,
    line: usize,
    start_offset: usize,
    line_len: usize,
    config: PhantomConfig,
    hints: Seq<InlayHintItem>,
    completion_lens: Option<LinePreview>,
    inline_completion: Option<LinePreview>,
    preedit: Option<LinePreview>,
    folding: FoldingRanges,
) -> bool {
            let views = piece_views(
                line,
                start_offset,
                line_len,
                config,
                hints,
                completion_lens,
                inline_completion,
                preedit,
                folding,
            );
            &&& pl.wf()
            &&& pl.line == line
            &&& pl.origin_text_len == line_len
            &&& pl.offset_of_line == start_offset
            &&& forall|k: int|
                0 <= k < views.len() && view_kept(#[trigger] views[k], shown_limit(pl)) ==> shown_in(pl.texts@, views[k])
            &&& forall|j: int|
                0 <= j < pl.texts@.len() && !(#[trigger] pl.texts@[j]).is_fold() ==> views.contains(view_of(pl.texts@[j]))
            &&& pl.folded_line_spec() matches Some(n) ==> exists|j: int|
                0 <= j < folding.0@.len() && (#[trigger] folding.0@[j]).is_folded() && folding.0@[j].start.line == line
                    && folding.0@[j].end.line == n
            &&& ((exists|j: int| 0 <= j < folding.0@.len() && folded_on(#[trigger] folding.0@[j], line)) && (forall|j: int|
                0 <= j < folding.0@.len() && folded_on(#[trigger] folding.0@[j], line) ==> folding.0@[j].start.character
                    <= line_len)) ==> (pl.folded_line_spec() is Some && forall|j: int|
                0 <= j < folding.0@.len() && folded_on(#[trigger] folding.0@[j], line) ==> folding.0@[j].end.line
                    <= pl.folded_line_spec().unwrap())
}

/// The line's offsets fit, and so does the shown text with every piece and
/// a placeholder.
pub open spec fn phantom_fits(
    line: usize,
    start_offset: usize,
    line_len: usize,
    config: PhantomConfig,
    hints: Seq<InlayHintItem>,
    completion_lens: Option<LinePreview>,
    inline_completion: Option<LinePreview>,
    preedit: Option<LinePreview>,
    folding: FoldingRanges,
) -> bool {
    &&& start_offset + line_len <= usize::MAX
    &&& line_len + views_width(
        piece_views(line, start_offset, line_len, config, hints, completion_lens, inline_completion, preedit, folding),
    ) + placeholder_width() <= usize::MAX
}

/// The virtual insertions of origin line `line`, which starts at buffer
/// offset `start_offset` and is `line_len` bytes long: the inlay hints
/// anchored in it (when shown, and not inside a collapsed range), the
/// completion lens and the inline completion (when shown, on this line and
/// not folded away), the pre-edit, and the placeholder of the collapsed
/// range that starts on it.
pub fn phantom_text(
    line: usize,
    start_offset: usize,
    line_len: usize,
    config: &PhantomConfig,
    hints: &Vec<InlayHintItem>,
    completion_lens: &Option<LinePreview>,
    inline_completion: &Option<LinePreview>,
    preedit: &Option<LinePreview>,
    folding: &FoldingRanges,
) -> (r: Result<PhantomTextLine, LayoutError>)
    ensures
        r matches Ok(pl) ==> phantom_line_of(
            pl,
            line,
            start_offset,
            line_len,
            *config,
            hints@,
            *completion_lens,
            *inline_completion,
            *preedit,
            *folding,
        ),
        r is Err ==> !phantom_fits(
            line,
            start_offset,
            line_len,
            *config,
            hints@,
            *completion_lens,
            *inline_completion,
            *preedit,
            *folding,
        ),
{
    if start_offset as u128 + line_len as u128 > usize::MAX as u128 {
        return Err(LayoutError::InvalidInterval);
    }
    let pieces = collect_pieces(
        line,
        start_offset,
        line_len,
        config,
        hints,
        completion_lens,
        inline_completion,
        preedit,
        folding,
    );
    let ghost views = pieces@.map_values(|p: PhantomText| view_of(p));
    let folded = folding.get_folded_range_by_line(line);
    let fold_range = outermost_fold(&folded);
    let fold = match fold_range {
        Some(x) => {
            proof {
                reveal_strlit("...");
            }
            Some(
                PhantomText {
                    kind: PhantomTextKind::LineFoldedRang {
                        next_line: x.end.line,
                        end_col: x.end.character,
                        start_line: x.start.line,
                        start_col: x.start.character,
                    },
                    line,
                    col: x.start.character,
                    merge_col: x.start.character,
                    final_col: x.start.character,
                    hide_len: 0,
                    text: String::from_str("..."),
                    affinity: None,
                },
            )
        },
        None => None,
    };
    let r = build_phantom_line(line, line_len, start_offset, pieces, fold);
    proof {
        reveal_strlit("...");
        lemma_encode_len(seq!['.', '.', '.']);
        lemma_widths_views(pieces@);
        if fold is Some {
            assert(fold.unwrap().text@ == seq!['.', '.', '.']);
        }
        assert(fold_width(fold) <= placeholder_width());
        if r is Ok && (exists|j: int| 0 <= j < folding.0@.len() && folded_on(#[trigger] folding.0@[j], line)) && (forall|j: int|
            0 <= j < folding.0@.len() && folded_on(#[trigger] folding.0@[j], line) ==> folding.0@[j].start.character
                <= line_len) {
            let j0 = choose|j: int| 0 <= j < folding.0@.len() && folded_on(#[trigger] folding.0@[j], line);
            assert(folded@.contains(folding.0@[j0]));
            assert(fold_range is Some);
            let x = fold_range.unwrap();
            let i0 = choose|i0: int| 0 <= i0 < folded@.len() && folded@[i0] == x;
            assert(folding.0@.contains(folded@[i0]));
            let j1 = choose|j1: int| 0 <= j1 < folding.0@.len() && folding.0@[j1] == x;
            assert(folded_on(folding.0@[j1], line));
            assert(x.start.character <= line_len);
            assert(width(fold.unwrap()) > 0);
            assert forall|j: int| 0 <= j < folding.0@.len() && folded_on(#[trigger] folding.0@[j], line) implies folding.0@[j].end.line
                <= x.end.line by {
                assert(folded@.contains(folding.0@[j]));
                let i = choose|i: int| 0 <= i < folded@.len() && folded@[i] == folding.0@[j];
                assert(pos_le(folded@[i].end, x.end));
            }
        }
        if r is Ok {
            let pl = r->Ok_0;
            if pl.folded_line_spec() is Some {
                assert(fold_range is Some);
                let x = fold_range.unwrap();
                assert(folded@.contains(x));
                let j0 = choose|j0: int| 0 <= j0 < folded@.len() && folded@[j0] == x;
                assert(0 <= j0 < folded@.len());
                assert(folding.0@.contains(folded@[j0]));
                assert(folded@[j0].is_folded());
                let j1 = choose|j1: int| 0 <= j1 < folding.0@.len() && folding.0@[j1] == x;
                assert(folding.0@[j1].is_folded());
            }
            assert forall|k: int| 0 <= k < views.len() && view_kept(#[trigger] views[k], shown_limit(pl)) implies shown_in(pl.texts@, views[k]) by {
                assert(views[k] == view_of(pieces@[k]));
                assert(kept(pieces@[k], shown_limit(pl)));
            }
            assert forall|j: int| 0 <= j < pl.texts@.len() && !(#[trigger] pl.texts@[j]).is_fold() implies views.contains(view_of(pl.texts@[j])) by {
                let k = choose|k: int| 0 <= k < pieces@.len() && 0 <= k < pieces@.len() && kept(#[trigger] pieces@[k], shown_limit(pl)) && view_of(pieces@[k]) == view_of(pl.texts@[j]);
                assert(views[k] == view_of(pieces@[k]));
            }
        }
    }
    r
}

} // verus!

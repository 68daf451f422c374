use doc_lines::assemble::{pad_hint_label, InlayHintItem, PhantomConfig};
use doc_lines::error::LayoutError;
use doc_lines::fold::{
    FoldPosition, FoldingDisplayItem, FoldingDisplayType, FoldingRange, FoldingRangeStatus, FoldingRanges,
};
use doc_lines::lines::{build_origin_lines, fold_origin_lines, DocLines, LineSources};
use doc_lines::line::OriginLine;
use doc_lines::mapper::{non_blank_choice, ClickResult, ColPosition, HorizCol};
use doc_lines::phantom::CursorAffinity;
use doc_lines::style::{Color, DiagnosticSpan, Offset, StyleSource, StyleSpan};

const IF_ELSE: [&str; 7] = [
    "fn main() {\r\n",
    "    if true {\r\n",
    "        let a = 1;\r\n",
    "    } else {\r\n",
    "        let b = 2;\r\n",
    "    }\r\n",
    "}\r\n",
];

fn color(r: u8) -> Color {
    Color { r, g: 0, b: 0, a: 255 }
}

fn sources(folds: Vec<FoldingRange>, hints: Vec<InlayHintItem>) -> LineSources {
    LineSources {
        config: PhantomConfig {
            enable_inlay_hints: true,
            enable_completion_lens: false,
            enable_inline_completion: true,
        },
        hints,
        completion_lens: None,
        inline_completion: None,
        preedit: None,
        folding: FoldingRanges(folds),
        style_source: StyleSource::Syntax,
        syntax_styles: Vec::new(),
        lsp_styles: Vec::new(),
        diagnostics: Vec::new(),
        enable_error_lens: true,
        severity_cutoff: 3,
    }
}

fn lens(lines: &[&str]) -> Vec<usize> {
    lines.iter().map(|l| l.len()).collect()
}

fn buffer(lines: &[&str]) -> Vec<u8> {
    lines.concat().into_bytes()
}

fn fold_range(sl: usize, sc: usize, el: usize, ec: usize) -> FoldingRange {
    FoldingRange {
        start: FoldPosition { line: sl, character: sc },
        end: FoldPosition { line: el, character: ec },
        status: FoldingRangeStatus::Fold,
    }
}

/// Builds the three tiers with no wrapping: one sub-line per folded line.
fn build(lines: &[&str], src: &LineSources) -> DocLines {
    let ols = build_origin_lines(&lens(lines), src).unwrap();
    let layouts = unwrapped_layouts(&ols);
    DocLines::new(ols, &layouts).unwrap()
}

fn unwrapped_layouts(ols: &Vec<OriginLine>) -> Vec<Vec<usize>> {
    let fs = fold_origin_lines(ols).unwrap();
    fs.iter().map(|f| vec![f.phantom_text.final_text_len]).collect()
}

fn folded_text(doc: &DocLines, i: usize, lines: &[&str]) -> String {
    let fl = &doc.origin_folded_lines[i];
    let origin = fl.phantom_text.origin_text(&buffer(lines)).unwrap();
    String::from_utf8(fl.phantom_text.final_line_content(&origin)).unwrap()
}

#[test]
fn simple_wrap_maps_lines_one_to_one() {
    let lines = ["    if true {\r\n", "    } else {\r\n", "    }\r\n"];
    let doc = build(&lines, &sources(vec![], vec![]));
    assert_eq!(doc.origin_lines.len(), 3);
    assert_eq!(doc.origin_folded_lines.len(), 3);
    assert_eq!(doc.visual_lines.len(), 3);
    for i in 0..3 {
        let fl = &doc.origin_folded_lines[i];
        assert_eq!(fl.origin_line_start, i);
        assert_eq!(fl.origin_line_end, i);
        let vl = &doc.visual_lines[i];
        assert_eq!(vl.origin_folded_line, i);
        assert_eq!(vl.origin_folded_line_sub_index, 0);
        assert_eq!(vl.origin_line, i);
        assert_eq!(vl.visual_interval.start, 0);
        assert_eq!(vl.visual_interval.end, lines[i].len());
    }
    assert_eq!(doc.visual_lines[1].origin_interval.start, 15);
    assert_eq!(doc.visual_lines[1].origin_interval.end, 29);
}

#[test]
fn test_folded_line_1() {
    let hint = InlayHintItem {
        offset: 13 + 15 + 20 + 14 + 20 + 7 + 3 + 9,
        position: FoldPosition { line: 7, character: 9 },
        label: ": A".to_string(),
        affinity: None,
    };
    let mut lines = IF_ELSE.to_vec();
    lines.push("    let a = A;\r\n");
    let src = sources(vec![fold_range(1, 13, 3, 4)], vec![hint]);
    let doc = build(&lines, &src);
    assert_eq!(folded_text(&doc, 1, &lines), "    if true {...} else {\r\n");
    let last = doc.origin_folded_lines.len() - 1;
    assert_eq!(folded_text(&doc, last, &lines), "    let a: A  = A;\r\n");
}

#[test]
fn test_folded_line_1_5() {
    let src = sources(vec![fold_range(1, 13, 3, 4), fold_range(3, 12, 5, 4)], vec![]);
    let doc = build(&IF_ELSE, &src);
    assert_eq!(folded_text(&doc, 1, &IF_ELSE), "    if true {...} else {...}\r\n");
}

#[test]
fn fold_collapse_merges_lines_and_reanchors_styles() {
    let mut src = sources(vec![fold_range(1, 13, 3, 4), fold_range(3, 12, 5, 4)], vec![]);
    let start5 = 13 + 15 + 20 + 14 + 20;
    // the closing brace of line 5
    src.syntax_styles = vec![StyleSpan { start: start5 + 4, end: start5 + 5, color: color(1) }];
    let doc = build(&IF_ELSE, &src);
    assert_eq!(doc.origin_folded_lines.len(), 3);
    let fl = &doc.origin_folded_lines[1];
    assert_eq!(fl.origin_line_start, 1);
    assert_eq!(fl.origin_line_end, 5);
    let placeholders: Vec<_> = fl.phantom_text.texts.iter().filter(|p| p.text == "...").collect();
    assert_eq!(placeholders.len(), 2);
    // the span is re-anchored after the merged text of lines 1 and 3
    assert_eq!(fl.semantic_styles.len(), 1);
    assert_eq!(fl.semantic_styles[0].origin_line_offset_start, 15 + 14 + 4);
    // and is shown where the last brace of "    if true {...} else {...}" is
    assert_eq!(fl.phantom_text.final_col_of_col(5, 4), 27);
    assert_eq!(doc.visual_lines.len(), 3);
    assert_eq!(doc.visual_lines[2].origin_line, 6);
}

#[test]
fn click_past_end_of_first_line() {
    let lines = ["    if true {\r\n", "    } else {\r\n", "    }\r\n"];
    let doc = build(&lines, &sources(vec![], vec![]));
    // the shaper reports the last index of the line, outside any glyph
    assert_eq!(doc.buffer_offset_of_click(0, 15, false), Ok((15, false)));
    assert_eq!(doc.buffer_offset_of_click(0, 163, false), Ok((15, false)));
    assert_eq!(doc.buffer_offset_of_click(0, 0, true), Ok((0, true)));
    assert_eq!(doc.buffer_offset_of_click(3, 0, true), Err(LayoutError::NotFound));
}

#[test]
fn round_trip_through_inlay_hint() {
    let lines = ["    let a = A;\r\n"];
    let hint = InlayHintItem {
        offset: 9,
        position: FoldPosition { line: 0, character: 9 },
        label: ": A".to_string(),
        affinity: None,
    };
    let doc = build(&lines, &sources(vec![], vec![hint]));
    let pl = &doc.origin_lines[0].phantom;
    for col in 0..=lines[0].len() {
        let f = pl.col_at(col).unwrap();
        assert_eq!(pl.cursor_position_of_final_col(f), (0, col, col));
    }
    assert_eq!(pl.col_at(9), Some(13));
    assert_eq!(pl.col_at(8), Some(8));
    // inside the hint text the caret goes to the hint's column
    assert_eq!(pl.cursor_position_of_final_col(11), (0, 9, 9));
}

#[test]
fn offsets_hidden_by_a_fold_go_to_the_placeholder() {
    let src = sources(vec![fold_range(1, 13, 3, 4)], vec![]);
    let doc = build(&IF_ELSE, &src);
    // an offset on the swallowed line 2 shows at the placeholder
    let p = doc.visual_line_of_offset(13 + 15 + 3, CursorAffinity::Forward, 2).unwrap();
    assert_eq!(p.origin_line, 2);
    assert_eq!(p.folded_line, 1);
    assert_eq!(p.offset_of_folded, 13);
    // the end of the fold on line 3 comes back after the placeholder
    let p = doc.visual_line_of_offset(13 + 15 + 20 + 4, CursorAffinity::Forward, 2).unwrap();
    assert_eq!(p.offset_of_folded, 16);
    assert!(doc.visual_line_of_offset(1000, CursorAffinity::Forward, 2).is_err());
}

#[test]
fn wrapped_line_splits_into_visual_lines() {
    let lines = ["abcdefghij\n", ""];
    let ols = build_origin_lines(&lens(&lines), &sources(vec![], vec![])).unwrap();
    // a layout must cover the shown text
    assert!(DocLines::new(build_origin_lines(&lens(&lines), &sources(vec![], vec![])).unwrap(), &vec![vec![4, 4], vec![]]).is_err());
    let doc = DocLines::new(ols, &vec![vec![4, 4, 3], vec![]]).unwrap();
    assert_eq!(doc.visual_lines.len(), 4);
    let v = &doc.visual_lines;
    assert_eq!((v[0].visual_interval.start, v[0].visual_interval.end), (0, 4));
    assert_eq!((v[1].visual_interval.start, v[1].visual_interval.end), (4, 8));
    assert_eq!((v[2].visual_interval.start, v[2].visual_interval.end), (8, 11));
    assert_eq!(v[1].origin_folded_line_sub_index, 1);
    // an empty layout stands for one empty sub-line
    assert_eq!((v[3].visual_interval.start, v[3].visual_interval.end), (0, 0));
    // a boundary offset: forward to the next sub-line, backward to the end of the first
    let f = doc.visual_line_of_offset(4, CursorAffinity::Forward, 1).unwrap();
    assert_eq!((f.visual_line, f.offset_of_visual), (1, 0));
    let b = doc.visual_line_of_offset(4, CursorAffinity::Backward, 1).unwrap();
    assert_eq!((b.visual_line, b.offset_of_visual), (0, 4));
    assert_eq!(doc.next_visual_line(0, 2).unwrap().0, 1);
    assert_eq!(doc.previous_visual_line(0, 2).unwrap().0, 0);
    // a selection over three visual lines
    let r = doc.selection_ranges(2, 9, 1).unwrap();
    assert_eq!(r, vec![(0, 2, 4), (1, 4, 8), (2, 8, 9)]);
}

#[test]
fn layout_wider_than_text_is_refused() {
    let lines = ["abc\n"];
    let ols = build_origin_lines(&lens(&lines), &sources(vec![], vec![])).unwrap();
    assert!(matches!(DocLines::new(ols, &vec![vec![10]]), Err(LayoutError::ShaperFailure)));
}

#[test]
fn collapse_then_expand_restores_ranges() {
    let mut ranges = FoldingRanges(vec![
        FoldingRange { status: FoldingRangeStatus::Unfold, ..fold_range(1, 13, 3, 4) },
        FoldingRange { status: FoldingRangeStatus::Unfold, ..fold_range(3, 12, 5, 4) },
    ]);
    let before = ranges.0.clone();
    let item = FoldingDisplayItem {
        position: FoldPosition { line: 1, character: 13 },
        row: 0,
        ty: FoldingDisplayType::UnfoldStart,
    };
    ranges.update_by_item(item);
    assert_eq!(ranges.0[0].status, FoldingRangeStatus::Fold);
    let folded = build(&IF_ELSE, &sources(ranges.0.clone(), vec![]));
    assert_eq!(folded.origin_folded_lines.len(), 5);
    ranges.update_by_item(FoldingDisplayItem { ty: FoldingDisplayType::Folded, ..item });
    assert_eq!(ranges.0, before);
    let a = build(&IF_ELSE, &sources(before.clone(), vec![]));
    let b = build(&IF_ELSE, &sources(ranges.0.clone(), vec![]));
    assert_eq!(a.visual_lines, b.visual_lines);
    assert_eq!(a.visual_lines.len(), 7);
}

#[test]
fn end_marker_collapses_by_end_position() {
    let mut ranges = FoldingRanges(vec![FoldingRange {
        status: FoldingRangeStatus::Unfold,
        ..fold_range(3, 12, 5, 4)
    }]);
    ranges.update_by_item(FoldingDisplayItem {
        position: FoldPosition { line: 5, character: 4 },
        row: 0,
        ty: FoldingDisplayType::UnfoldEnd,
    });
    assert_eq!(ranges.0[0].status, FoldingRangeStatus::Fold);
    // an item that marks no range changes nothing
    ranges.update_by_item(FoldingDisplayItem {
        position: FoldPosition { line: 9, character: 0 },
        row: 0,
        ty: FoldingDisplayType::UnfoldStart,
    });
    assert_eq!(ranges.0[0].status, FoldingRangeStatus::Fold);
}

#[test]
fn diagnostics_are_clipped_to_their_lines() {
    let mut src = sources(vec![], vec![]);
    src.diagnostics = vec![
        DiagnosticSpan { start: 10, end: 20, severity: 1, color: color(2) },
        DiagnosticSpan { start: 0, end: 2, severity: 4, color: color(3) },
    ];
    let lines = ["    if true {\r\n", "    } else {\r\n"];
    let ols = build_origin_lines(&lens(&lines), &src).unwrap();
    assert_eq!(ols[0].diagnostic_styles.len(), 1);
    assert_eq!(ols[0].diagnostic_styles[0].origin_line_offset_start, 10);
    assert_eq!(ols[0].diagnostic_styles[0].len, 5);
    assert_eq!(ols[1].diagnostic_styles.len(), 1);
    assert_eq!(ols[1].diagnostic_styles[0].origin_line_offset_start, 0);
    assert_eq!(ols[1].diagnostic_styles[0].len, 5);
}

#[test]
fn hint_labels_are_padded() {
    assert_eq!(pad_hint_label(&": i32".to_string()), ": i32 ");
    assert_eq!(pad_hint_label(&"name:".to_string()), " name: ");
    assert_eq!(pad_hint_label(&"i32".to_string()), " i32");
}

#[test]
fn chain_to_a_missing_line_is_not_found() {
    let lines = ["a {\n", "}\n"];
    let src = sources(vec![fold_range(0, 3, 5, 0)], vec![]);
    let ols = build_origin_lines(&lens(&lines), &src).unwrap();
    assert!(matches!(fold_origin_lines(&ols), Err(LayoutError::NotFound)));
}

#[test]
fn clicks_on_virtual_text() {
    let mut lines = IF_ELSE.to_vec();
    lines.push("    let a = A;\r\n");
    let hint = InlayHintItem {
        offset: 92 + 9,
        position: FoldPosition { line: 7, character: 9 },
        label: ": A".to_string(),
        affinity: None,
    };
    let doc = build(&lines, &sources(vec![fold_range(1, 13, 3, 4)], vec![hint]));
    let last = doc.visual_lines.len() - 1;
    // "    let a: A  = A;": the hint ": A " covers final columns 9..13
    assert_eq!(
        doc.result_of_left_click(last, 11),
        Ok(ClickResult::MatchHint { line: 7, col: 9, phantom_offset: 2 })
    );
    assert_eq!(doc.result_of_left_click(last, 3), Ok(ClickResult::NoHint));
    // "    if true {...} else {": the placeholder covers 13..16
    assert_eq!(
        doc.result_of_left_click(1, 14),
        Ok(ClickResult::MatchFolded { start: FoldPosition { line: 1, character: 13 } })
    );
    assert_eq!(doc.result_of_left_click(99, 0), Err(LayoutError::NotFound));
    assert_eq!(doc.last_visual_line(), Some(doc.visual_lines[last]));
}

#[test]
fn first_non_blank_choices() {
    assert_eq!(non_blank_choice(10, 0, 4), (4, ColPosition::FirstNonBlank));
    assert_eq!(non_blank_choice(0, 0, 4), (4, ColPosition::FirstNonBlank));
    assert_eq!(non_blank_choice(2, 0, 4), (0, ColPosition::Start));
}

#[test]
fn lines_of_an_offset() {
    let src = sources(vec![fold_range(1, 13, 3, 4)], vec![]);
    let doc = build(&IF_ELSE, &src);
    let l = doc.lines_of_origin_offset(13 + 15 + 20 + 6, 2).unwrap();
    assert_eq!((l.origin_line, l.origin_folded_line, l.visual_line), (3, 1, 1));
    // "    if true {...}" : column 6 of line 3 is final column 13 + 3 + 2
    assert_eq!(l.origin_folded_line_offset, 18);
    assert_eq!(l.visual_line_offset, 18);
}

#[test]
fn failed_rebuild_keeps_the_layout() {
    let lines = ["abc\n", "de"];
    let src = sources(vec![], vec![]);
    let mut doc = build(&lines, &src);
    let before = doc.visual_lines.clone();
    let ols = build_origin_lines(&lens(&lines), &src).unwrap();
    assert_eq!(doc.rebuild(ols, &vec![vec![99], vec![2]]), Err(LayoutError::ShaperFailure));
    assert_eq!(doc.visual_lines, before);
    let ols = build_origin_lines(&lens(&lines), &src).unwrap();
    assert_eq!(doc.rebuild(ols, &vec![vec![2, 2], vec![2]]), Ok(()));
    assert_eq!(doc.visual_lines.len(), 3);
}

#[test]
fn folded_line_moves_with_an_edit_before_it() {
    let src = sources(vec![fold_range(1, 13, 3, 4)], vec![]);
    let doc = build(&IF_ELSE, &src);
    let fl = &doc.origin_folded_lines[1];
    let moved = fl.adjust(Offset::Add(10), Offset::Add(2), 3);
    assert_eq!(moved.line_index, 3);
    assert_eq!((moved.origin_line_start, moved.origin_line_end), (3, 5));
    assert_eq!(moved.origin_interval.start, fl.origin_interval.start + 10);
    assert_eq!(moved.phantom_text.segments[1].line, 5);
    assert_eq!(moved.phantom_text.segments[1].offset_of_line, 13 + 15 + 20 + 10);
    assert_eq!(moved.phantom_text.final_text_len, fl.phantom_text.final_text_len);
    assert_eq!(moved.sub_lines, fl.sub_lines);
    let back = moved.adjust(Offset::Minus(10), Offset::Minus(2), 1);
    assert_eq!(back.origin_interval, fl.origin_interval);
    assert_eq!(back.phantom_text.segments, fl.phantom_text.segments);
}

#[test]
fn caret_columns_on_a_visual_line() {
    let lines = ["    abcd\n", "xy"];
    let ols = build_origin_lines(&lens(&lines), &sources(vec![], vec![])).unwrap();
    let doc = DocLines::new(ols, &vec![vec![3, 6], vec![2]]).unwrap();
    let shown = buffer(&lines[..1]);
    // visual line 1 shows " abcd\n" from final column 3
    assert_eq!(doc.rvline_horiz_col(HorizCol::Start, 1, &shown), Ok(3));
    assert_eq!(doc.rvline_horiz_col(HorizCol::End, 1, &shown), Ok(9));
    assert_eq!(doc.rvline_horiz_col(HorizCol::FirstNonBlank, 1, &shown), Ok(4));
    assert_eq!(doc.rvline_horiz_col(HorizCol::Hit(50), 0, &shown), Ok(9));
    assert_eq!(doc.rvline_horiz_col(HorizCol::Start, 3, &shown), Err(LayoutError::NotFound));
    let mut aff = CursorAffinity::Backward;
    assert_eq!(doc.first_non_blank(&mut aff, 7, 1, &shown), Ok((4, ColPosition::FirstNonBlank)));
    assert_eq!(aff, CursorAffinity::Forward);
    let mut aff = CursorAffinity::Backward;
    assert!(doc.first_non_blank(&mut aff, 99, 1, &shown).is_err());
    assert_eq!(aff, CursorAffinity::Backward);
}

#[test]
fn caret_moves_between_visual_lines() {
    let lines = ["    abcd\n", "xy"];
    let ols = build_origin_lines(&lens(&lines), &sources(vec![], vec![])).unwrap();
    let doc = DocLines::new(ols, &vec![vec![3, 6], vec![2]]).unwrap();
    let shown0 = buffer(&lines[..1]);
    let shown1 = buffer(&lines[1..]);
    // from offset 7 (visual line 1) up to visual line 0, start column
    assert_eq!(
        doc.move_up(7, CursorAffinity::Forward, HorizCol::Start, 1, &shown0),
        Ok((0, HorizCol::Start, CursorAffinity::Backward))
    );
    // down from visual line 1 to the line "xy", at shown column 1
    assert_eq!(
        doc.move_down(7, CursorAffinity::Forward, HorizCol::Hit(1), 1, &shown1),
        Ok((10, HorizCol::Hit(1), CursorAffinity::Backward))
    );
    assert!(doc.move_up(99, CursorAffinity::Forward, HorizCol::Start, 1, &shown0).is_err());
    let mut aff = CursorAffinity::Forward;
    assert_eq!(doc.end_of_line(&mut aff, 2, 1), Ok((8, ColPosition::End)));
    assert_eq!(aff, CursorAffinity::Backward);
}

#[test]
fn folded_lines_build_when_chains_resolve() {
    let src = sources(vec![fold_range(1, 13, 3, 4), fold_range(3, 12, 5, 4)], vec![]);
    let ols = build_origin_lines(&lens(&IF_ELSE), &src).unwrap();
    let fs = fold_origin_lines(&ols).unwrap();
    assert_eq!(fs.len(), 3);
    assert_eq!((fs[1].origin_line_start, fs[1].origin_line_end), (1, 5));
}

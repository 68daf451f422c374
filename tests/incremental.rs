use doc_lines::assemble::PhantomConfig;
use doc_lines::delta::{rebuild_origin_lines, resolve_delta, touched_range, DeltaElement, OriginLinesDelta};
use doc_lines::fold::FoldingRanges;
use doc_lines::lines::{build_origin_lines, LineSources};
use doc_lines::style::{Color, StyleSource, StyleSpan};

fn sources(spans: Vec<StyleSpan>) -> LineSources {
    LineSources {
        config: PhantomConfig { enable_inlay_hints: true, enable_completion_lens: true, enable_inline_completion: true },
        hints: Vec::new(),
        completion_lens: None,
        inline_completion: None,
        preedit: None,
        folding: FoldingRanges(Vec::new()),
        style_source: StyleSource::Syntax,
        syntax_styles: spans,
        lsp_styles: Vec::new(),
        diagnostics: Vec::new(),
        enable_error_lens: true,
        severity_cutoff: 3,
    }
}

#[test]
fn single_range_edit_matches_full_rebuild() {
    // "ab\ncd\nef" becomes "ab\nxyz\nw\nef"
    let old_lens = vec![3, 3, 2];
    let new_lens = vec![3, 4, 2, 2];
    let els = vec![DeltaElement::Copy(0, 3), DeltaElement::Insert(5), DeltaElement::Copy(5, 8)];
    let d = resolve_delta(&old_lens, &new_lens, &els, 8).unwrap();
    assert_eq!(d, OriginLinesDelta { start_line: 1, end_line: 2, new_end_line: 3 });
    let old_src = sources(vec![StyleSpan { start: 6, end: 7, color: Color { r: 9, g: 9, b: 9, a: 255 } }]);
    let old = build_origin_lines(&old_lens, &old_src).unwrap();
    let new_src = sources(vec![StyleSpan { start: 9, end: 10, color: Color { r: 9, g: 9, b: 9, a: 255 } }]);
    let inc = rebuild_origin_lines(&old, &old_lens, &new_lens, d, &new_src).unwrap();
    let full = build_origin_lines(&new_lens, &new_src).unwrap();
    assert_eq!(inc.len(), full.len());
    for (a, b) in inc.iter().zip(full.iter()) {
        assert_eq!((a.line_index, a.start_offset, a.len), (b.line_index, b.start_offset, b.len));
        assert_eq!(a.semantic_styles, b.semantic_styles);
    }
    // the moved line carries its style to its new place
    assert_eq!(inc[3].semantic_styles[0].start_of_buffer, 9);
    assert_eq!(inc[3].semantic_styles[0].origin_line, 3);
}

#[test]
fn unrecognized_delta_asks_for_full_rebuild() {
    assert!(touched_range(&vec![DeltaElement::Copy(0, 8)], 8).is_none());
    let old_lens = vec![3, 3, 2];
    // lines outside the window changed: not a single-range edit
    let new_lens = vec![4, 3, 2];
    let els = vec![DeltaElement::Copy(0, 3), DeltaElement::Insert(1), DeltaElement::Copy(3, 8)];
    assert_eq!(resolve_delta(&old_lens, &new_lens, &els, 8), None);
}

#[test]
fn touched_range_of_an_insert() {
    let els = vec![DeltaElement::Copy(0, 4), DeltaElement::Insert(2), DeltaElement::Copy(6, 10)];
    let t = touched_range(&els, 10).unwrap();
    assert_eq!((t.prefix, t.suffix), (4, 6));
}

#[test]
fn lines_match_checks_geometry() {
    let lens = vec![3, 3, 2];
    let ols = build_origin_lines(&lens, &sources(vec![])).unwrap();
    assert!(doc_lines::delta::lines_match(&ols, &lens));
    assert!(!doc_lines::delta::lines_match(&ols, &vec![3, 2, 3]));
}

#[test]
fn several_deltas_take_the_union_of_their_windows() {
    let old_lens = vec![3, 3, 2];
    let new_lens = vec![3, 5, 2];
    let deltas = vec![
        (vec![DeltaElement::Copy(0, 4), DeltaElement::Insert(1), DeltaElement::Copy(4, 8)], 8),
        (vec![DeltaElement::Copy(0, 5), DeltaElement::Insert(1), DeltaElement::Copy(5, 9)], 9),
    ];
    let d = doc_lines::delta::resolve_deltas(&old_lens, &new_lens, &deltas, 8).unwrap();
    assert_eq!(d, OriginLinesDelta { start_line: 1, end_line: 2, new_end_line: 2 });
    assert_eq!(doc_lines::delta::resolve_deltas(&old_lens, &new_lens, &vec![], 8), None);
}

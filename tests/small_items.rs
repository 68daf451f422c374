use doc_lines::cursor::{Cursor, Position};
use doc_lines::misc::{index_to_rgb, ranges_overlap, Level};
use doc_lines::mode::{Mode, Modes, MotionMode, VisualMode, MODE_INSERT, MODE_NORMAL, MODE_TERMINAL, MODE_VISUAL};
use doc_lines::resolve::{find_num_index, first_non_whitespace_index, resolve_detail_head, Head};
use doc_lines::style::{track_max_severity, Color, DiagnosticSpan, NewLineStyle, Offset};

#[test]
fn motion_counts() {
    assert_eq!(MotionMode::Delete { count: 3 }.count(), 3);
    assert_eq!(MotionMode::Yank { count: 2 }.count(), 2);
    assert_eq!(MotionMode::Indent.count(), 1);
    assert_eq!(MotionMode::Outdent.count(), 1);
}

#[test]
fn modes_parse() {
    assert_eq!(Modes::parse("nv").bits, MODE_NORMAL | MODE_VISUAL);
    assert_eq!(Modes::parse("ITx").bits, MODE_INSERT | MODE_TERMINAL);
    assert_eq!(Modes::parse("").bits, 0);
    assert_eq!(Modes::from_mode(Mode::Visual(VisualMode::Linewise)).bits, MODE_VISUAL);
    assert!(Modes::parse("inv").contains(Modes::from_mode(Mode::Insert)));
    assert!(!Modes::parse("n").contains(Modes::from_mode(Mode::Terminal)));
}

#[test]
fn modes_text_round_trip() {
    assert_eq!(Modes::parse("tvn").to_text(), "nvt");
    assert_eq!(Modes::parse("Ii").to_text(), "i");
    assert_eq!(Modes::parse("x").to_text(), "");
    assert_eq!(Modes::parse(&Modes::parse("vi").to_text()).bits, MODE_VISUAL | MODE_INSERT);
}

#[test]
fn cursor_ends() {
    let c = Cursor::new(Position::Region { start: 7, end: 3 });
    assert_eq!(c.offset(), Some(3));
    assert_eq!(c.start(), Some(7));
    assert_eq!(c.region(), Some((3, 7)));
    let c = Cursor::new(Position::Caret(5));
    assert_eq!(c.offset(), Some(5));
    assert_eq!(c.region(), None);
    let c = Cursor::new(Position::Region { start: 4, end: 4 });
    assert_eq!(c.region(), None);
    assert_eq!(Cursor::new(Position::Empty).offset(), None);
}

#[test]
fn overlap_of_ranges() {
    assert_eq!(ranges_overlap(&(0..5), &(3..9)), Some(3..5));
    assert_eq!(ranges_overlap(&(3..9), &(0..5)), Some(3..5));
    assert_eq!(ranges_overlap(&(0..3), &(3..9)), None);
    assert_eq!(ranges_overlap(&(2..8), &(3..4)), Some(3..4));
}

#[test]
fn terminal_colours() {
    assert_eq!(index_to_rgb(1), [128, 0, 0]);
    assert_eq!(index_to_rgb(11), [255, 255, 85]);
    assert_eq!(index_to_rgb(16), [8, 8, 8]);
    assert_eq!(index_to_rgb(20), [48, 48, 48]);
    assert_eq!(index_to_rgb(232), [0, 0, 0]);
    assert_eq!(index_to_rgb(233), [40, 40, 40]);
    assert_eq!(index_to_rgb(100), [255, 255, 255]);
    assert_eq!(index_to_rgb(240), [255, 255, 255]);
    assert_eq!(index_to_rgb(9), [255, 0, 0]);
}

#[test]
fn level_only_rises() {
    let mut l = Level::Normal;
    l.update(Level::Warn);
    assert_eq!(l, Level::Warn);
    l.update(Level::Normal);
    assert_eq!(l, Level::Warn);
    l.update(Level::Error);
    assert_eq!(l, Level::Error);
}

#[test]
fn detail_heads() {
    assert_eq!(resolve_detail_head("15 |     a"), Head::Code { split_index: 4 });
    assert_eq!(resolve_detail_head("   |     ^ not found"), Head::CodeMsg { split_index: 4 });
    assert_eq!(
        resolve_detail_head("   = note: unused"),
        Head::Note { split_index: 4, note_range: 5..9 }
    );
    assert_eq!(resolve_detail_head("error: oops"), Head::Other);
}

#[test]
fn whitespace_and_digits() {
    assert_eq!(first_non_whitespace_index("   ab"), Some(3));
    assert_eq!(first_non_whitespace_index(" \t "), None);
    assert!(find_num_index("line 4"));
    assert!(!find_num_index("line"));
}

#[test]
fn offsets_adjust() {
    let mut x: usize = 10;
    Offset::Add(5).adjust(&mut x);
    assert_eq!(x, 15);
    Offset::Minus(3).adjust(&mut x);
    assert_eq!(x, 12);
    Offset::Zero.adjust(&mut x);
    assert_eq!(x, 12);
    let mut s = NewLineStyle {
        origin_line: 4,
        origin_line_offset_start: 2,
        len: 3,
        start_of_buffer: 40,
        end_of_buffer: 43,
        fg_color: Color { r: 1, g: 2, b: 3, a: 4 },
    };
    s.adjust(Offset::Add(10), Offset::Minus(1));
    assert_eq!((s.origin_line, s.start_of_buffer, s.end_of_buffer, s.origin_line_offset_start), (3, 50, 53, 2));
}

#[test]
fn most_severe_diagnostic_of_a_line() {
    let c = Color { r: 0, g: 0, b: 0, a: 255 };
    let diags = vec![
        DiagnosticSpan { start: 2, end: 4, severity: 2, color: c },
        DiagnosticSpan { start: 3, end: 5, severity: 1, color: c },
        DiagnosticSpan { start: 50, end: 60, severity: 1, color: c },
    ];
    let mut m = None;
    track_max_severity(true, 0, 10, 3, &diags, &mut m);
    assert_eq!(m, Some(1));
    let mut m = Some(3);
    track_max_severity(false, 0, 10, 3, &diags, &mut m);
    assert_eq!(m, Some(3));
}

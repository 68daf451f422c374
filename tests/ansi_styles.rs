use doc_lines::ansi::{StyleChange, StyleState, TerminalParser, TextStyle};
use doc_lines::style::Color;

fn feed(p: &mut TerminalParser, s: &str) {
    for c in s.chars() {
        p.print(c);
    }
}

#[test]
fn sgr_styles_cover_printed_text() {
    let mut p = TerminalParser::new();
    p.csi_dispatch(&vec![1, 31], 'm');
    feed(&mut p, "err");
    p.csi_dispatch(&vec![0], 'm');
    feed(&mut p, " ok");
    p.execute(b'\n');
    assert_eq!(p.output.text, "err ok\n");
    assert_eq!(p.output.styles.len(), 1);
    let s = p.output.styles[0];
    assert_eq!((s.start, s.end, s.bold), (0, 3, true));
    assert_eq!(s.fg_color, Some(Color { r: 255, g: 0, b: 0, a: 255 }));
}

#[test]
fn extended_colours() {
    let mut p = TerminalParser::new();
    p.csi_dispatch(&vec![38, 2, 1, 2, 3, 48, 5, 20], 'm');
    feed(&mut p, "x");
    p.csi_dispatch(&vec![4], 'm');
    let s = p.output.styles[0];
    assert_eq!(s.fg_color, Some(Color { r: 1, g: 2, b: 3, a: 255 }));
    assert_eq!(s.bg_color, Some(Color { r: 48, g: 48, b: 48, a: 255 }));
    assert!(!s.underline);
    // other sequences and control bytes leave the state alone
    p.csi_dispatch(&vec![1], 'H');
    p.execute(7);
    assert_eq!(p.output.text, "x");
}

#[test]
fn style_state_steps() {
    let mut st = StyleState::Empty;
    let change = StyleChange { bold: None, italic: Some(true), underline: None, bg_color: None, fg_color: None };
    assert_eq!(st.init(change), None);
    st.ref_by(4);
    st.ref_by(5);
    let done = st.clear();
    assert_eq!(
        done,
        Some(TextStyle { start: 4, end: 6, bold: false, italic: true, underline: false, bg_color: None, fg_color: None })
    );
    assert_eq!(st, StyleState::Empty);
}

#[test]
fn colour_index_high_on_the_ramp_is_white() {
    let mut p = TerminalParser::new();
    p.csi_dispatch(&vec![38, 5, 100, 1], 'm');
    p.print('x');
    p.csi_dispatch(&vec![0], 'm');
    let s = p.output.styles[0];
    assert_eq!(s.fg_color, Some(Color { r: 255, g: 255, b: 255, a: 255 }));
    assert!(s.bold);
}

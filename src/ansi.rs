//! Turning the SGR escape sequences of terminal output into text styles.
//! The escape parser calls `print`, `execute` and `csi_dispatch`; the
//! style of the text in between is tracked here.
use vstd::prelude::*;
use crate::misc::index_to_rgb;
use crate::style::Color;

verus! {

/// A styled byte range `[start, end)` of the output text.
#[derive(Clone, Copy, Debug, PartialEq, Eq, Structural, Hash)]
pub struct TextStyle {
    pub start: usize,
    pub end: usize,
    pub bold: bool,
    pub italic: bool,
    pub underline: bool,
    pub bg_color: Option<Color>,
    pub fg_color: Option<Color>,
}

/// The style in force: none, one set but not yet used, or one used over
/// `[start, end)`.
#[derive(Clone, Copy, Debug, PartialEq, Eq, Structural, Hash)]
pub enum StyleState {
    Empty,
    Init { bold: bool, italic: bool, underline: bool, bg_color: Option<Color>, fg_color: Option<Color> },
    Ref {
        start: usize,
        end: usize,
        bold: bool,
        italic: bool,
        underline: bool,
        bg_color: Option<Color>,
        fg_color: Option<Color>,
    },
}

pub open spec fn or_keep<T>(new: Option<T>, old: T) -> T {
    match new {
        Some(v) => v,
        None => old,
    }
}

pub open spec fn or_keep_opt<T>(new: Option<T>, old: Option<T>) -> Option<T> {
    match new {
        Some(v) => Some(v),
        None => old,
    }
}

/// A change of style: each `Some` field sets that attribute.
#[derive(Clone, Copy, Debug, PartialEq, Eq, Structural, Hash)]
pub struct StyleChange {
    pub bold: Option<bool>,
    pub italic: Option<bool>,
    pub underline: Option<bool>,
    pub bg_color: Option<Color>,
    pub fg_color: Option<Color>,
}

impl StyleState {
    pub open spec fn ref_by_spec(self, offset: usize) -> StyleState {
        match self {
            StyleState::Empty => self,
            StyleState::Init { bold, italic, underline, bg_color, fg_color } => StyleState::Ref {
                start: offset,
                end: (offset + 1) as usize,
                bold,
                italic,
                underline,
                bg_color,
                fg_color,
            },
            StyleState::Ref { start, bold, italic, underline, bg_color, fg_color, .. } => StyleState::Ref {
                start,
                end: (offset + 1) as usize,
                bold,
                italic,
                underline,
                bg_color,
                fg_color,
            },
        }
    }

    /// The byte at `offset` is printed in the current style.
    pub fn ref_by(&mut self, offset: usize)
        requires
            offset < usize::MAX,
        ensures
            *final(self) == old(self).ref_by_spec(offset),
    {
        *self = match *self {
            StyleState::Empty => StyleState::Empty,
            StyleState::Init { bold, italic, underline, bg_color, fg_color } => StyleState::Ref {
                start: offset,
                end: offset + 1,
                bold,
                italic,
                underline,
                bg_color,
                fg_color,
            },
            StyleState::Ref { start, bold, italic, underline, bg_color, fg_color, .. } => StyleState::Ref {
                start,
                end: offset + 1,
                bold,
                italic,
                underline,
                bg_color,
                fg_color,
            },
        };
    }

    /// The state after `c`, and the style of the text printed so far when
    /// it ends here.
    pub open spec fn init_spec(self, c: StyleChange) -> (StyleState, Option<TextStyle>) {
        match self {
            StyleState::Empty => (
                StyleState::Init {
                    bold: or_keep(c.bold, false),
                    italic: or_keep(c.italic, false),
                    underline: or_keep(c.underline, false),
                    bg_color: c.bg_color,
                    fg_color: c.fg_color,
                },
                None,
            ),
            StyleState::Init { bold, italic, underline, bg_color, fg_color } => (
                StyleState::Init {
                    bold: or_keep(c.bold, bold),
                    italic: or_keep(c.italic, italic),
                    underline: or_keep(c.underline, underline),
                    bg_color: or_keep_opt(c.bg_color, bg_color),
                    fg_color: or_keep_opt(c.fg_color, fg_color),
                },
                None,
            ),
            StyleState::Ref { start, end, bold, italic, underline, bg_color, fg_color } => (
                StyleState::Init {
                    bold: or_keep(c.bold, bold),
                    italic: or_keep(c.italic, italic),
                    underline: or_keep(c.underline, underline),
                    bg_color: or_keep_opt(c.bg_color, bg_color),
                    fg_color: or_keep_opt(c.fg_color, fg_color),
                },
                Some(TextStyle { start, end, bold, italic, underline, bg_color, fg_color }),
            ),
        }
    }

    /// Applies a change of style; the text printed in the old style, if
    /// any, is handed back.
    pub fn init(&mut self, c: StyleChange) -> (r: Option<TextStyle>)
        ensures
            (*final(self), r) == old(self).init_spec(c),
    {
        let (state, style) = match *self {
            StyleState::Empty => (
                StyleState::Init {
                    bold: match c.bold { Some(v) => v, None => false },
                    italic: match c.italic { Some(v) => v, None => false },
                    underline: match c.underline { Some(v) => v, None => false },
                    bg_color: c.bg_color,
                    fg_color: c.fg_color,
                },
                None,
            ),
            StyleState::Init { bold, italic, underline, bg_color, fg_color } => (
                StyleState::Init {
                    bold: match c.bold { Some(v) => v, None => bold },
                    italic: match c.italic { Some(v) => v, None => italic },
                    underline: match c.underline { Some(v) => v, None => underline },
                    bg_color: match c.bg_color { Some(v) => Some(v), None => bg_color },
                    fg_color: match c.fg_color { Some(v) => Some(v), None => fg_color },
                },
                None,
            ),
            StyleState::Ref { start, end, bold, italic, underline, bg_color, fg_color } => (
                StyleState::Init {
                    bold: match c.bold { Some(v) => v, None => bold },
                    italic: match c.italic { Some(v) => v, None => italic },
                    underline: match c.underline { Some(v) => v, None => underline },
                    bg_color: match c.bg_color { Some(v) => Some(v), None => bg_color },
                    fg_color: match c.fg_color { Some(v) => Some(v), None => fg_color },
                },
                Some(TextStyle { start, end, bold, italic, underline, bg_color, fg_color }),
            ),
        };
        *self = state;
        style
    }

    pub open spec fn clear_spec(self) -> (StyleState, Option<TextStyle>) {
        match self {
            StyleState::Ref { start, end, bold, italic, underline, bg_color, fg_color } => (
                StyleState::Empty,
                Some(TextStyle { start, end, bold, italic, underline, bg_color, fg_color }),
            ),
            _ => (StyleState::Empty, None),
        }
    }

    /// Resets the style; the text printed in the old style, if any, is
    /// handed back.
    pub fn clear(&mut self) -> (r: Option<TextStyle>)
        ensures
            (*final(self), r) == old(self).clear_spec(),
    {
        let r = match *self {
            StyleState::Ref { start, end, bold, italic, underline, bg_color, fg_color } => Some(
                TextStyle { start, end, bold, italic, underline, bg_color, fg_color },
            ),
            _ => None,
        };
        *self = StyleState::Empty;
        r
    }
}

pub open spec fn rgb(r: u8, g: u8, b: u8) -> Color {
    Color { r, g, b, a: 255 }
}

/// The colour of the eight standard SGR colours, `code` in `0..8`: black,
/// red, green, yellow, blue, magenta, cyan and white.
pub open spec fn standard_color(code: u16) -> Color {
    if code == 0 {
        rgb(0, 0, 0)
    } else if code == 1 {
        rgb(255, 0, 0)
    } else if code == 2 {
        rgb(0, 128, 0)
    } else if code == 3 {
        rgb(255, 255, 0)
    } else if code == 4 {
        rgb(0, 0, 255)
    } else if code == 5 {
        rgb(255, 0, 255)
    } else if code == 6 {
        rgb(0, 255, 255)
    } else {
        rgb(255, 255, 255)
    }
}

fn standard_color_exec(code: u16) -> (r: Color)
    ensures
        r == standard_color(code),
{
    if code == 0 {
        Color { r: 0, g: 0, b: 0, a: 255 }
    } else if code == 1 {
        Color { r: 255, g: 0, b: 0, a: 255 }
    } else if code == 2 {
        Color { r: 0, g: 128, b: 0, a: 255 }
    } else if code == 3 {
        Color { r: 255, g: 255, b: 0, a: 255 }
    } else if code == 4 {
        Color { r: 0, g: 0, b: 255, a: 255 }
    } else if code == 5 {
        Color { r: 255, g: 0, b: 255, a: 255 }
    } else if code == 6 {
        Color { r: 0, g: 255, b: 255, a: 255 }
    } else {
        Color { r: 255, g: 255, b: 255, a: 255 }
    }
}

pub open spec fn no_change() -> StyleChange {
    StyleChange { bold: None, italic: None, underline: None, bg_color: None, fg_color: None }
}

/// The colour of an extended colour parameter at `i` (`2;r;g;b` or
/// `5;index`), and the index after it; `None` when the parameters end or
/// the kind is not known.
pub open spec fn extended_color(params: Seq<u16>, i: int) -> (Option<Color>, int) {
    if i < params.len() && params[i] == 2 {
        if i + 3 < params.len() {
            (Some(rgb((params[i + 1] % 256) as u8, (params[i + 2] % 256) as u8, (params[i + 3] % 256) as u8)), i + 4)
        } else {
            (None, params.len() as int)
        }
    } else if i < params.len() && params[i] == 5 {
        if i + 1 < params.len() {
            let c = crate::misc::index_to_rgb_spec((params[i + 1] % 256) as u8);
            (Some(rgb(c[0], c[1], c[2])), i + 2)
        } else {
            (None, params.len() as int)
        }
    } else if i < params.len() {
        (None, i + 1)
    } else {
        (None, i)
    }
}

/// The change that the SGR parameter at `i` asks for (`None` to reset),
/// and the index of the next parameter.
pub open spec fn sgr_step(params: Seq<u16>, i: int) -> (Option<StyleChange>, int) {
    let p = params[i];
    if p == 0 {
        (None, i + 1)
    } else if p == 1 {
        (Some(StyleChange { bold: Some(true), ..no_change() }), i + 1)
    } else if p == 3 {
        (Some(StyleChange { italic: Some(true), ..no_change() }), i + 1)
    } else if p == 4 {
        (Some(StyleChange { underline: Some(true), ..no_change() }), i + 1)
    } else if 30 <= p <= 37 {
        (Some(StyleChange { fg_color: Some(standard_color((p - 30) as u16)), ..no_change() }), i + 1)
    } else if 40 <= p <= 47 {
        (Some(StyleChange { bg_color: Some(standard_color((p - 40) as u16)), ..no_change() }), i + 1)
    } else if p == 38 || p == 48 {
        let (c, next) = extended_color(params, i + 1);
        match c {
            Some(col) => (
                Some(if p == 38 {
                    StyleChange { fg_color: Some(col), ..no_change() }
                } else {
                    StyleChange { bg_color: Some(col), ..no_change() }
                }),
                next,
            ),
            None => (Some(no_change()), next),
        }
    } else {
        (Some(no_change()), i + 1)
    }
}

/// The state and the finished styles after the SGR parameters from `i` on.
pub open spec fn sgr_from(state: StyleState, styles: Seq<TextStyle>, params: Seq<u16>, i: int) -> (
    StyleState,
    Seq<TextStyle>,
)
    decreases params.len() - i,
{
    if i < 0 || i >= params.len() {
        (state, styles)
    } else {
        let (change, next) = sgr_step(params, i);
        let (s2, done) = match change {
            None => state.clear_spec(),
            Some(c) => if c == no_change() {
                (state, None)
            } else {
                state.init_spec(c)
            },
        };
        let styles2 = match done {
            Some(t) => styles.push(t),
            None => styles,
        };
        if next <= i {
            (s2, styles2)
        } else {
            sgr_from(s2, styles2, params, next)
        }
    }
}

fn extended_color_exec(params: &Vec<u16>, i: usize) -> (r: (Option<Color>, usize))
    requires
        i <= params@.len(),
    ensures
        (r.0, r.1 as int) == extended_color(params@, i as int),
{
    let n = params.len();
    if i < n && params[i] == 2 {
        if n - i > 3 {
            (
                Some(
                    Color {
                        r: (params[i + 1] % 256) as u8,
                        g: (params[i + 2] % 256) as u8,
                        b: (params[i + 3] % 256) as u8,
                        a: 255,
                    },
                ),
                i + 4,
            )
        } else {
            (None, n)
        }
    } else if i < n && params[i] == 5 {
        if n - i > 1 {
            let c = index_to_rgb((params[i + 1] % 256) as u8);
            (Some(Color { r: c[0], g: c[1], b: c[2], a: 255 }), i + 2)
        } else {
            (None, n)
        }
    } else if i < n {
        (None, i + 1)
    } else {
        (None, i)
    }
}

/// Output text with its styles.
#[derive(Clone, Debug)]
pub struct StyledText {
    pub text: String,
    pub styles: Vec<TextStyle>,
}

/// Collects printed text and the styles that SGR sequences give it.
#[derive(Debug)]
pub struct TerminalParser {
    pub output: StyledText,
    pub style_state: StyleState,
}

/// Relies on `String::push`: the character is appended.
#[verifier::external_body]
fn push_char(s: &mut String, c: char)
    ensures
        final(s)@ == old(s)@.push(c),
{
    s.push(c)
}

impl TerminalParser {
    pub fn new() -> (r: TerminalParser)
        ensures
            r.output.text@.len() == 0,
            r.output.styles@.len() == 0,
            r.style_state == StyleState::Empty,
    {
        TerminalParser {
            output: StyledText { text: String::new(), styles: Vec::new() },
            style_state: StyleState::Empty,
        }
    }

    /// Prints `c`: it is appended, and its last byte is covered by the
    /// current style.
    pub fn print(&mut self, c: char)
        ensures
            final(self).output.text@ == old(self).output.text@.push(c),
            final(self).output.styles@ == old(self).output.styles@,
    {
        push_char(&mut self.output.text, c);
        let n = self.output.text.as_str().len();
        if n > 0 {
            self.style_state.ref_by(n - 1);
        }
    }

    /// A line feed is kept; other control bytes are dropped.
    pub fn execute(&mut self, byte: u8)
        ensures
            final(self).output.text@ == if byte == 10 {
                old(self).output.text@.push('\n')
            } else {
                old(self).output.text@
            },
            final(self).style_state == old(self).style_state,
            final(self).output.styles@ == old(self).output.styles@,
    {
        if byte == 10 {
            push_char(&mut self.output.text, '\n');
        }
    }

    /// Applies an SGR sequence (`action` `m`) with the given parameters,
    /// flattened; other sequences are ignored.
    pub fn csi_dispatch(&mut self, params: &Vec<u16>, action: char)
        ensures
            final(self).output.text@ == old(self).output.text@,
            action != 'm' ==> final(self).style_state == old(self).style_state && final(self).output.styles@
                == old(self).output.styles@,
            action == 'm' ==> (final(self).style_state, final(self).output.styles@) == sgr_from(
                old(self).style_state,
                old(self).output.styles@,
                params@,
                0,
            ),
    {
        if action != 'm' {
            return;
        }
        let mut i: usize = 0;
        while i < params.len()
            invariant
                i <= params@.len(),
                self.output.text@ == old(self).output.text@,
                sgr_from(self.style_state, self.output.styles@, params@, i as int) == sgr_from(
                    old(self).style_state,
                    old(self).output.styles@,
                    params@,
                    0,
                ),
            decreases params.len() - i,
        {
            let p = params[i];
            let ghost (change_g, next_g) = sgr_step(params@, i as int);
            let mut next = i + 1;
            let done = if p == 0 {
                self.style_state.clear()
            } else if p == 1 {
                self.style_state.init(StyleChange { bold: Some(true), italic: None, underline: None, bg_color: None, fg_color: None })
            } else if p == 3 {
                self.style_state.init(StyleChange { bold: None, italic: Some(true), underline: None, bg_color: None, fg_color: None })
            } else if p == 4 {
                self.style_state.init(StyleChange { bold: None, italic: None, underline: Some(true), bg_color: None, fg_color: None })
            } else if 30 <= p && p <= 37 {
                let c = standard_color_exec(p - 30);
                self.style_state.init(StyleChange { bold: None, italic: None, underline: None, bg_color: None, fg_color: Some(c) })
            } else if 40 <= p && p <= 47 {
                let c = standard_color_exec(p - 40);
                self.style_state.init(StyleChange { bold: None, italic: None, underline: None, bg_color: Some(c), fg_color: None })
            } else if p == 38 || p == 48 {
                let (c, n2) = extended_color_exec(params, i + 1);
                next = n2;
                match c {
                    Some(col) => if p == 38 {
                        self.style_state.init(StyleChange { bold: None, italic: None, underline: None, bg_color: None, fg_color: Some(col) })
                    } else {
                        self.style_state.init(StyleChange { bold: None, italic: None, underline: None, bg_color: Some(col), fg_color: None })
                    },
                    None => None,
                }
            } else {
                None
            };
            if let Some(t) = done {
                self.output.styles.push(t);
            }
            proof {
                assert(next == next_g);
            }
            i = next;
        }
    }
}

} // verus!

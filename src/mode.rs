//! Editing modes and motion modes.
use vstd::prelude::*;
use vstd::string::StringExecFns;

verus! {

/// What a motion does to the text it spans.
#[derive(Clone, Debug, PartialEq, Eq, Structural)]
pub enum MotionMode {
    Delete { count: usize },
    Yank { count: usize },
    Indent,
    Outdent,
}

impl MotionMode {
    /// How many times the motion repeats.
    pub open spec fn count_spec(&self) -> usize {
        match self {
            MotionMode::Delete { count } => *count,
            MotionMode::Yank { count } => *count,
            MotionMode::Indent => 1,
            MotionMode::Outdent => 1,
        }
    }

    pub fn count(&self) -> (r: usize)
        ensures
            r == self.count_spec(),
    {
        match self {
            MotionMode::Delete { count } => *count,
            MotionMode::Yank { count } => *count,
            MotionMode::Indent => 1,
            MotionMode::Outdent => 1,
        }
    }
}

#[derive(Clone, Copy, Debug, PartialEq, Eq, Structural, Hash)]
pub enum VisualMode {
    Normal,
    Linewise,
    Blockwise,
}

#[derive(Clone, Copy, Debug, PartialEq, Eq, Structural, Hash)]
pub enum Mode {
    Normal,
    Insert,
    Visual(VisualMode),
    Terminal,
}

/// The bit of `Modes` for normal mode.
pub const MODE_NORMAL: u32 = 1;
/// The bit of `Modes` for insert mode.
pub const MODE_INSERT: u32 = 2;
/// The bit of `Modes` for visual mode.
pub const MODE_VISUAL: u32 = 4;
/// The bit of `Modes` for terminal mode.
pub const MODE_TERMINAL: u32 = 8;

/// A set of modes, one bit per `Mode` variant (visual sub-modes share a bit).
#[derive(Clone, Copy, Debug, PartialEq, Eq, Structural, Hash)]
pub struct Modes {
    pub bits: u32,
}

/// The mode bit that a character of a mode string stands for, or 0.
pub open spec fn mode_bit_of_char(c: char) -> u32 {
    if c == 'i' || c == 'I' {
        MODE_INSERT
    } else if c == 'n' || c == 'N' {
        MODE_NORMAL
    } else if c == 'v' || c == 'V' {
        MODE_VISUAL
    } else if c == 't' || c == 'T' {
        MODE_TERMINAL
    } else {
        0
    }
}

/// The union of the bits that the characters of `s` stand for.
pub open spec fn mode_bits_of(s: Seq<char>) -> u32
    decreases s.len(),
{
    if s.len() == 0 {
        0
    } else {
        mode_bits_of(s.drop_last()) | mode_bit_of_char(s.last())
    }
}

pub open spec fn mode_bit_spec(mode: Mode) -> u32 {
    match mode {
        Mode::Normal => MODE_NORMAL,
        Mode::Insert => MODE_INSERT,
        Mode::Visual(_) => MODE_VISUAL,
        Mode::Terminal => MODE_TERMINAL,
    }
}

/// The letters of the modes in a set: `i`, `n`, `v`, `t`, in that order.
pub open spec fn modes_text(bits: u32) -> Seq<char> {
    (if bits & MODE_INSERT == MODE_INSERT { seq!['i'] } else { seq![] })
        + (if bits & MODE_NORMAL == MODE_NORMAL { seq!['n'] } else { seq![] })
        + (if bits & MODE_VISUAL == MODE_VISUAL { seq!['v'] } else { seq![] })
        + (if bits & MODE_TERMINAL == MODE_TERMINAL { seq!['t'] } else { seq![] })
}

impl Modes {
    /// The set written as `parse` reads it.
    pub fn to_text(&self) -> (r: String)
        ensures
            r@ == modes_text(self.bits),
    {
        proof {
            reveal_strlit("i");
            reveal_strlit("n");
            reveal_strlit("v");
            reveal_strlit("t");
            reveal_strlit("");
        }
        let mut r = String::from_str("");
        let ghost s0 = r@;
        if self.bits & MODE_INSERT == MODE_INSERT {
            r = r.concat("i");
        }
        let ghost s1 = r@;
        if self.bits & MODE_NORMAL == MODE_NORMAL {
            r = r.concat("n");
        }
        let ghost s2 = r@;
        if self.bits & MODE_VISUAL == MODE_VISUAL {
            r = r.concat("v");
        }
        let ghost s3 = r@;
        if self.bits & MODE_TERMINAL == MODE_TERMINAL {
            r = r.concat("t");
        }
        proof {
            assert(s0 =~= seq![]);
            assert(r@ =~= modes_text(self.bits));
        }
        r
    }

    pub fn empty() -> (r: Modes)
        ensures
            r.bits == 0,
    {
        Modes { bits: 0 }
    }

    pub fn contains(&self, other: Modes) -> (r: bool)
        ensures
            r == (self.bits & other.bits == other.bits),
    {
        self.bits & other.bits == other.bits
    }

    /// The set that holds exactly `mode`.
    pub fn from_mode(mode: Mode) -> (r: Modes)
        ensures
            r.bits == mode_bit_spec(mode),
    {
        match mode {
            Mode::Normal => Modes { bits: MODE_NORMAL },
            Mode::Insert => Modes { bits: MODE_INSERT },
            Mode::Visual(_) => Modes { bits: MODE_VISUAL },
            Mode::Terminal => Modes { bits: MODE_TERMINAL },
        }
    }

    /// Reads a mode string such as `"nv"`: `i`, `n`, `v` and `t` (either
    /// case) add insert, normal, visual and terminal mode; other characters
    /// are ignored.
    pub fn parse(modes_str: &str) -> (r: Modes)
        ensures
            r.bits == mode_bits_of(modes_str@),
    {
        let mut bits: u32 = 0;
        let n = modes_str.unicode_len();
        let mut i: usize = 0;
        while i < n
            invariant
                n == modes_str@.len(),
                i <= n,
                bits == mode_bits_of(modes_str@.subrange(0, i as int)),
            decreases n - i,
        {
            let c = modes_str.get_char(i);
            let b: u32 = if c == 'i' || c == 'I' {
                MODE_INSERT
            } else if c == 'n' || c == 'N' {
                MODE_NORMAL
            } else if c == 'v' || c == 'V' {
                MODE_VISUAL
            } else if c == 't' || c == 'T' {
                MODE_TERMINAL
            } else {
                0
            };
            proof {
                let s = modes_str@.subrange(0, i + 1);
                assert(s.drop_last() =~= modes_str@.subrange(0, i as int));
            }
            bits = bits | b;
            i = i + 1;
        }
        proof {
            assert(modes_str@.subrange(0, n as int) =~= modes_str@);
        }
        Modes { bits }
    }
}

} // verus!

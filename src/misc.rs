//! Small helpers of the output panels: range overlap, terminal colours,
//! message levels.
use vstd::prelude::*;

verus! {

/// The common part of two ranges, when it is not empty.
pub open spec fn ranges_overlap_spec(r1: (usize, usize), r2: (usize, usize)) -> Option<(usize, usize)> {
    let o = if r2.0 <= r1.0 && r1.0 < r2.1 {
        Some((r1.0, if r1.1 <= r2.1 { r1.1 } else { r2.1 }))
    } else if r1.0 <= r2.0 && r2.0 < r1.1 {
        Some((r2.0, if r2.1 <= r1.1 { r2.1 } else { r1.1 }))
    } else {
        None
    };
    match o {
        Some((s, e)) => if s < e { Some((s, e)) } else { None },
        None => None,
    }
}

pub fn ranges_overlap(r1: &std::ops::Range<usize>, r2: &std::ops::Range<usize>) -> (r: Option<std::ops::Range<usize>>)
    ensures
        r matches Some(o) ==> ranges_overlap_spec((r1.start, r1.end), (r2.start, r2.end)) == Some((o.start, o.end)),
        r is None ==> ranges_overlap_spec((r1.start, r1.end), (r2.start, r2.end)) is None,
{
    let (s, e) = if r2.start <= r1.start && r1.start < r2.end {
        (r1.start, if r1.end <= r2.end { r1.end } else { r2.end })
    } else if r1.start <= r2.start && r2.start < r1.end {
        (r2.start, if r2.end <= r1.end { r2.end } else { r1.end })
    } else {
        return None;
    };
    if s < e {
        Some(std::ops::Range { start: s, end: e })
    } else {
        None
    }
}

/// The sixteen basic terminal colours.
pub open spec fn basic_color(index: int) -> Seq<u8> {
    let table = seq![
        seq![0u8, 0, 0], seq![128u8, 0, 0], seq![0u8, 128, 0], seq![128u8, 128, 0],
        seq![0u8, 0, 128], seq![128u8, 0, 128], seq![0u8, 128, 128], seq![192u8, 192, 192],
        seq![128u8, 128, 128], seq![255u8, 0, 0], seq![0u8, 255, 0], seq![255u8, 255, 85],
        seq![0u8, 0, 255], seq![255u8, 0, 255], seq![0u8, 255, 255], seq![255u8, 255, 255],
    ];
    table[index]
}

/// A ramp value, held at 255 once it passes a byte.
pub open spec fn ramp(v: int) -> u8 {
    if v <= 255 { v as u8 } else { 255 }
}

/// The RGB of a 256-colour terminal index: the basic colours, then a grey
/// ramp of step 10 from 8, then a ramp of step 40 from 0; both ramps stop
/// at white.
pub open spec fn index_to_rgb_spec(index: u8) -> Seq<u8> {
    if index < 16 {
        basic_color(index as int)
    } else if index < 232 {
        let g = ramp((index - 16) * 10 + 8);
        seq![g, g, g]
    } else {
        let c = ramp((index - 232) * 40);
        seq![c, c, c]
    }
}

pub fn index_to_rgb(index: u8) -> (r: [u8; 3])
    ensures
        r@ == index_to_rgb_spec(index),
{
    if index < 16 {
        let basic_colors: [[u8; 3]; 16] = [
            [0, 0, 0], [128, 0, 0], [0, 128, 0], [128, 128, 0],
            [0, 0, 128], [128, 0, 128], [0, 128, 128], [192, 192, 192],
            [128, 128, 128], [255, 0, 0], [0, 255, 0], [255, 255, 85],
            [0, 0, 255], [255, 0, 255], [0, 255, 255], [255, 255, 255],
        ];
        let r = basic_colors[index as usize];
        proof {
            assert(r@ =~= basic_color(index as int));
        }
        r
    } else if index < 232 {
        let v: u32 = (index - 16) as u32 * 10 + 8;
        let gray: u8 = if v <= 255 { v as u8 } else { 255 };
        let r = [gray, gray, gray];
        proof {
            assert(r@ =~= index_to_rgb_spec(index));
        }
        r
    } else {
        let v: u32 = (index - 232) as u32 * 40;
        let c: u8 = if v <= 255 { v as u8 } else { 255 };
        let r = [c, c, c];
        proof {
            assert(r@ =~= index_to_rgb_spec(index));
        }
        r
    }
}

/// How bad the worst message below a tree node is.
#[derive(Clone, Copy, Debug, PartialEq, Eq, Structural, Hash)]
pub enum Level {
    Normal,
    Warn,
    Error,
}

pub open spec fn level_rank(l: Level) -> int {
    match l {
        Level::Normal => 0,
        Level::Warn => 1,
        Level::Error => 2,
    }
}

impl Level {
    /// Raises the level to `level` when that is worse.
    pub fn update(&mut self, level: Level)
        ensures
            *final(self) == if level_rank(level) > level_rank(*old(self)) { level } else { *old(self) },
    {
        let worse = match (level, *self) {
            (Level::Error, Level::Warn) | (Level::Error, Level::Normal) | (Level::Warn, Level::Normal) => true,
            _ => false,
        };
        if worse {
            *self = level;
        }
    }
}

/// The level of a message on standard error.
#[derive(Clone, Copy, Debug, PartialEq, Eq, Structural, Hash)]
pub enum ErrLevel {
    Error,
}

/// A line that a child process wrote.
#[derive(Clone, Debug)]
pub enum OutputLine {
    StdOut(String),
    StdErr(String),
}

} // verus!

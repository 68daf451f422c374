//! Reading the head of a line of compiler output.
use vstd::prelude::*;
use vstd::string::StringSliceAdditionalSpecFns;

verus! {

/// The Unicode `White_Space` property: tab to carriage return, space, next line, no-break space,
/// ogham space mark, the spaces U+2000 to U+200A, the line and paragraph
/// separators, narrow no-break space, medium mathematical space and
/// ideographic space.
pub open spec fn whitespace_char(c: char) -> bool {
    let u = c as u32;
    (0x9 <= u && u <= 0xD) || u == 0x20 || u == 0x85 || u == 0xA0 || u == 0x1680 || (0x2000 <= u && u <= 0x200A)
        || u == 0x2028 || u == 0x2029 || u == 0x202F || u == 0x205F || u == 0x3000
}

/// Whether `c` has the Unicode `White_Space` property.
fn is_whitespace(c: char) -> (r: bool)
    ensures
        r == whitespace_char(c),
{
    let u = c as u32;
    (0x9 <= u && u <= 0xD) || u == 0x20 || u == 0x85 || u == 0xA0 || u == 0x1680 || (0x2000 <= u && u <= 0x200A)
        || u == 0x2028 || u == 0x2029 || u == 0x202F || u == 0x205F || u == 0x3000
}

/// The index of the first character of `s` that is not whitespace.
pub fn first_non_whitespace_index(s: &str) -> (r: Option<usize>)
    ensures
        r matches Some(i) ==> i < s@.len() && !whitespace_char(s@[i as int]) && forall|j: int|
            0 <= j < i ==> whitespace_char(#[trigger] s@[j]),
        r is None ==> forall|j: int| 0 <= j < s@.len() ==> whitespace_char(#[trigger] s@[j]),
{
    let n = s.unicode_len();
    let mut i: usize = 0;
    while i < n
        invariant
            n == s@.len(),
            i <= n,
            forall|j: int| 0 <= j < i ==> whitespace_char(#[trigger] s@[j]),
        decreases n - i,
    {
        if !is_whitespace(s.get_char(i)) {
            return Some(i);
        }
        i = i + 1;
    }
    None
}

pub open spec fn is_decimal_digit(c: char) -> bool {
    '0' <= c && c <= '9'
}

/// `s` holds a decimal digit.
pub fn find_num_index(s: &str) -> (r: bool)
    ensures
        r == exists|j: int| 0 <= j < s@.len() && is_decimal_digit(#[trigger] s@[j]),
{
    let n = s.unicode_len();
    let mut i: usize = 0;
    while i < n
        invariant
            n == s@.len(),
            i <= n,
            forall|j: int| 0 <= j < i ==> !is_decimal_digit(#[trigger] s@[j]),
        decreases n - i,
    {
        let c = s.get_char(i);
        if '0' <= c && c <= '9' {
            return true;
        }
        i = i + 1;
    }
    false
}

/// The kind of a detail line of a compiler message, with byte indices into
/// the line.
#[derive(Debug, PartialEq, Eq)]
pub enum Head {
    /// `   |     ^ not found in this scope`: the gutter ends at `split_index`.
    CodeMsg { split_index: usize },
    /// `15 |     a`: a numbered source line.
    Code { split_index: usize },
    /// `   = note: ...`
    Note { split_index: usize, note_range: std::ops::Range<usize> },
    Other,
}

/// The first index at or after `i` where `pat` occurs in `b`.
pub open spec fn find_from(b: Seq<u8>, pat: Seq<u8>, i: int) -> Option<int>
    decreases b.len() + 1 - i,
{
    if i < 0 || i + pat.len() > b.len() {
        None
    } else if b.subrange(i, i + pat.len()) == pat {
        Some(i)
    } else {
        find_from(b, pat, i + 1)
    }
}

pub proof fn lemma_find_from(b: Seq<u8>, pat: Seq<u8>, i: int)
    requires
        0 <= i,
    ensures
        find_from(b, pat, i) matches Some(j) ==> i <= j && j + pat.len() <= b.len(),
    decreases b.len() + 1 - i,
{
    if i + pat.len() <= b.len() && b.subrange(i, i + pat.len()) != pat {
        lemma_find_from(b, pat, i + 1);
    }
}

pub open spec fn is_digit_byte(x: u8) -> bool {
    48 <= x && x <= 57
}

pub open spec fn note_pattern() -> Seq<u8> {
    seq![61u8, 32, 110, 111, 116, 101]
}

/// The head of `msg`: after the first `|` a gutter, numbered when a digit
/// comes before it; otherwise a note at the first `= note`.
pub open spec fn detail_head_spec(b: Seq<u8>) -> Head {
    match find_from(b, seq![124u8], 0) {
        Some(i) => if exists|j: int| 0 <= j <= i && is_digit_byte(#[trigger] b[j]) {
            Head::Code { split_index: (i + 1) as usize }
        } else {
            Head::CodeMsg { split_index: (i + 1) as usize }
        },
        None => match find_from(b, note_pattern(), 0) {
            Some(j) => Head::Note {
                split_index: (j + 1) as usize,
                note_range: std::ops::Range { start: (j + 2) as usize, end: (j + 6) as usize },
            },
            None => Head::Other,
        },
    }
}

fn find_bytes(b: &[u8], pat: &[u8]) -> (r: Option<usize>)
    ensures
        r matches Some(i) ==> find_from(b@, pat@, 0) == Some(i as int),
        r is None ==> find_from(b@, pat@, 0) is None,
{
    let mut i: usize = 0;
    let blen = b.len();
    if pat.len() > blen {
        return None;
    }
    while i <= b.len() - pat.len()
        invariant
            i <= b@.len(),
            b@.len() == blen,
            pat@.len() <= b@.len(),
            find_from(b@, pat@, 0) == find_from(b@, pat@, i as int),
        decreases b.len() - i,
    {
        let mut k: usize = 0;
        let mut same = true;
        while k < pat.len()
            invariant
                i + pat@.len() <= b@.len(),
                pat@.len() <= b@.len(),
                b@.len() == blen,
                k <= pat@.len(),
                same <==> forall|t: int| 0 <= t < k ==> b@[i + t] == #[trigger] pat@[t],
            decreases pat.len() - k,
        {
            if b[i + k] != pat[k] {
                same = false;
            }
            k = k + 1;
        }
        proof {
            if same {
                assert(b@.subrange(i as int, i + pat@.len()) =~= pat@);
            } else {
                let t = choose|t: int| 0 <= t < pat@.len() && b@[i + t] != #[trigger] pat@[t];
                assert(b@.subrange(i as int, i + pat@.len())[t] != pat@[t]);
            }
        }
        if same {
            return Some(i);
        }
        i = i + 1;
    }
    None
}

/// Classifies a detail line of a compiler message.
pub fn resolve_detail_head(msg: &str) -> (r: Head)
    ensures
        r == detail_head_spec(msg.spec_bytes()),
{
    let b = msg.as_bytes();
    let blen = b.len();
    let bar: [u8; 1] = [124];
    let note: [u8; 6] = [61, 32, 110, 111, 116, 101];
    proof {
        assert(bar@ =~= seq![124u8]);
        assert(note@ =~= note_pattern());
    }
    match find_bytes(b, bar.as_slice()) {
        Some(i) => {
            proof {
                lemma_find_from(b@, bar@, 0);
            }
            let split_index = i + 1;
            let mut j: usize = 0;
            let mut digit = false;
            while j < split_index
                invariant
                    split_index <= b@.len(),
                    j <= split_index,
                    digit <==> exists|t: int| 0 <= t < j && is_digit_byte(#[trigger] b@[t]),
                decreases split_index - j,
            {
                if 48 <= b[j] && b[j] <= 57 {
                    digit = true;
                }
                j = j + 1;
            }
            if digit {
                Head::Code { split_index }
            } else {
                Head::CodeMsg { split_index }
            }
        },
        None => match find_bytes(b, note.as_slice()) {
            Some(j) => {
                proof {
                    lemma_find_from(b@, note@, 0);
                }
                Head::Note {
                split_index: j + 1,
                note_range: std::ops::Range { start: j + 2, end: j + 6 },
            }
            },
            None => Head::Other,
        },
    }
}

} // verus!

//! Byte classes, cursor scanners and the line lexer.
//!
//! Every parsing function in this crate works on a byte buffer and a cursor
//! position, and hands the position of the first unconsumed byte back to its
//! caller. The scanners here find the end of a maximal run of bytes matching
//! a predicate; the spec side is the single function [`scan_while`].
use vstd::prelude::*;

verus! {

/// A failed parse. A numeric field that does not parse as its target type is
/// reported apart from a broken section structure, and never as a request for
/// more input.
#[derive(Clone, Copy, Debug, PartialEq, Eq, Structural)]
pub enum ParseError {
    /// A numeric field's text does not parse as the expected numeric type.
    MalformedNumber,
    /// A structural expectation (blank line, terminator, required line) is not met.
    MalformedSection,
}

/// Horizontal whitespace: a space or a tab.
pub open spec fn is_space_byte(b: u8) -> bool {
    b == 32 || b == 9
}

/// A line break byte: carriage return or line feed.
pub open spec fn is_break_byte(b: u8) -> bool {
    b == 13 || b == 10
}

/// An ASCII decimal digit.
pub open spec fn is_digit_byte(b: u8) -> bool {
    48 <= b && b <= 57
}

/// A byte that may appear in a numeric run: a digit, `.` or `,`.
pub open spec fn is_numlike_byte(b: u8) -> bool {
    is_digit_byte(b) || b == 46 || b == 44
}

/// Executable mirror of [`is_space_byte`].
pub fn is_space(b: u8) -> (r: bool)
    ensures
        r == is_space_byte(b),
{
    b == 32 || b == 9
}

/// Executable mirror of [`is_break_byte`].
pub fn is_break(b: u8) -> (r: bool)
    ensures
        r == is_break_byte(b),
{
    b == 13 || b == 10
}

/// Executable mirror of [`is_digit_byte`].
pub fn is_digit(b: u8) -> (r: bool)
    ensures
        r == is_digit_byte(b),
{
    48 <= b && b <= 57
}

/// Executable mirror of [`is_numlike_byte`].
pub fn is_numlike(b: u8) -> (r: bool)
    ensures
        r == is_numlike_byte(b),
{
    is_digit(b) || b == 46 || b == 44
}

/// The position of the first byte at or after `pos` that fails `p`, or the
/// end of the buffer if every remaining byte matches.
pub open spec fn scan_while(s: Seq<u8>, pos: int, p: spec_fn(u8) -> bool) -> int
    decreases s.len() - pos
    when 0 <= pos <= s.len()
{
    if pos >= s.len() || !p(s[pos]) {
        pos
    } else {
        scan_while(s, pos + 1, p)
    }
}

/// What [`scan_while`] returns: a position within bounds, with every byte of
/// the scanned run matching and the first unscanned byte (if any) failing.
pub proof fn lemma_scan_while(s: Seq<u8>, pos: int, p: spec_fn(u8) -> bool)
    requires
        0 <= pos <= s.len(),
    ensures
        pos <= scan_while(s, pos, p) <= s.len(),
        forall|k: int| pos <= k < scan_while(s, pos, p) ==> p(s[k]),
        scan_while(s, pos, p) < s.len() ==> !p(s[scan_while(s, pos, p)]),
    decreases s.len() - pos,
{
    if pos < s.len() && p(s[pos]) {
        lemma_scan_while(s, pos + 1, p);
    }
}

/// A position with the run/stop shape is exactly what [`scan_while`] returns.
pub proof fn lemma_scan_while_is(s: Seq<u8>, pos: int, e: int, p: spec_fn(u8) -> bool)
    requires
        0 <= pos <= e <= s.len(),
        forall|k: int| pos <= k < e ==> p(s[k]),
        e == s.len() || !p(s[e]),
    ensures
        scan_while(s, pos, p) == e,
    decreases e - pos,
{
    if pos < e {
        lemma_scan_while_is(s, pos + 1, e, p);
    }
}

/// End of the run of horizontal whitespace starting at `pos`.
pub open spec fn space_end(s: Seq<u8>, pos: int) -> int {
    scan_while(s, pos, |b: u8| is_space_byte(b))
}

/// End of the whitespace-delimited token starting at `pos`: the first
/// position holding a space or a tab, or the end of the buffer.
pub open spec fn token_end(s: Seq<u8>, pos: int) -> int {
    scan_while(s, pos, |b: u8| !is_space_byte(b))
}

/// End of the line text starting at `pos`: the first position holding a
/// carriage return or a line feed, or the end of the buffer.
pub open spec fn line_text_end(s: Seq<u8>, pos: int) -> int {
    scan_while(s, pos, |b: u8| !is_break_byte(b))
}

/// End of the run of bytes before the first decimal digit at or after `pos`.
pub open spec fn digit_start(s: Seq<u8>, pos: int) -> int {
    scan_while(s, pos, |b: u8| !is_digit_byte(b))
}

/// End of the maximal numeric run (digits, `.`, `,`) starting at `pos`.
pub open spec fn numlike_end(s: Seq<u8>, pos: int) -> int {
    scan_while(s, pos, |b: u8| is_numlike_byte(b))
}

/// Executable scanner for [`space_end`].
#[verifier::loop_isolation(false)]
pub fn scan_space(input: &[u8], pos: usize) -> (r: usize)
    requires
        pos <= input@.len(),
    ensures
        r as int == space_end(input@, pos as int),
        pos <= r <= input@.len(),
{
    let ghost p = |b: u8| is_space_byte(b);
    let mut i = pos;
    loop
        invariant
            pos <= i <= input@.len(),
            scan_while(input@, pos as int, p) == scan_while(input@, i as int, p),
        decreases input@.len() - i,
    {
        if i < input.len() && is_space(input[i]) {
            proof {
                assert(p(input@[i as int]));
                assert(scan_while(input@, i as int, p) == scan_while(input@, i + 1, p));
            }
            i = i + 1;
        } else {
            proof {
                assert(scan_while(input@, i as int, p) == i as int);
            }
            break;
        }
    }
    proof {
        lemma_scan_while(input@, pos as int, p);
    }
    i
}

/// Executable scanner for [`token_end`].
#[verifier::loop_isolation(false)]
pub fn scan_token(input: &[u8], pos: usize) -> (r: usize)
    requires
        pos <= input@.len(),
    ensures
        r as int == token_end(input@, pos as int),
        pos <= r <= input@.len(),
{
    let ghost p = |b: u8| !is_space_byte(b);
    let mut i = pos;
    loop
        invariant
            pos <= i <= input@.len(),
            scan_while(input@, pos as int, p) == scan_while(input@, i as int, p),
        decreases input@.len() - i,
    {
        if i < input.len() && !is_space(input[i]) {
            proof {
                assert(p(input@[i as int]));
                assert(scan_while(input@, i as int, p) == scan_while(input@, i + 1, p));
            }
            i = i + 1;
        } else {
            proof {
                assert(scan_while(input@, i as int, p) == i as int);
            }
            break;
        }
    }
    proof {
        lemma_scan_while(input@, pos as int, p);
    }
    i
}

/// Executable scanner for [`line_text_end`].
#[verifier::loop_isolation(false)]
pub fn scan_line_text(input: &[u8], pos: usize) -> (r: usize)
    requires
        pos <= input@.len(),
    ensures
        r as int == line_text_end(input@, pos as int),
        pos <= r <= input@.len(),
{
    let ghost p = |b: u8| !is_break_byte(b);
    let mut i = pos;
    loop
        invariant
            pos <= i <= input@.len(),
            scan_while(input@, pos as int, p) == scan_while(input@, i as int, p),
        decreases input@.len() - i,
    {
        if i < input.len() && !is_break(input[i]) {
            proof {
                assert(p(input@[i as int]));
                assert(scan_while(input@, i as int, p) == scan_while(input@, i + 1, p));
            }
            i = i + 1;
        } else {
            proof {
                assert(scan_while(input@, i as int, p) == i as int);
            }
            break;
        }
    }
    proof {
        lemma_scan_while(input@, pos as int, p);
    }
    i
}

/// Executable scanner for [`digit_start`].
#[verifier::loop_isolation(false)]
pub fn scan_to_digit(input: &[u8], pos: usize) -> (r: usize)
    requires
        pos <= input@.len(),
    ensures
        r as int == digit_start(input@, pos as int),
        pos <= r <= input@.len(),
{
    let ghost p = |b: u8| !is_digit_byte(b);
    let mut i = pos;
    loop
        invariant
            pos <= i <= input@.len(),
            scan_while(input@, pos as int, p) == scan_while(input@, i as int, p),
        decreases input@.len() - i,
    {
        if i < input.len() && !is_digit(input[i]) {
            proof {
                assert(p(input@[i as int]));
                assert(scan_while(input@, i as int, p) == scan_while(input@, i + 1, p));
            }
            i = i + 1;
        } else {
            proof {
                assert(scan_while(input@, i as int, p) == i as int);
            }
            break;
        }
    }
    proof {
        lemma_scan_while(input@, pos as int, p);
    }
    i
}

/// Executable scanner for [`numlike_end`].
#[verifier::loop_isolation(false)]
pub fn scan_numlike(input: &[u8], pos: usize) -> (r: usize)
    requires
        pos <= input@.len(),
    ensures
        r as int == numlike_end(input@, pos as int),
        pos <= r <= input@.len(),
{
    let ghost p = |b: u8| is_numlike_byte(b);
    let mut i = pos;
    loop
        invariant
            pos <= i <= input@.len(),
            scan_while(input@, pos as int, p) == scan_while(input@, i as int, p),
        decreases input@.len() - i,
    {
        if i < input.len() && is_numlike(input[i]) {
            proof {
                assert(p(input@[i as int]));
                assert(scan_while(input@, i as int, p) == scan_while(input@, i + 1, p));
            }
            i = i + 1;
        } else {
            proof {
                assert(scan_while(input@, i as int, p) == i as int);
            }
            break;
        }
    }
    proof {
        lemma_scan_while(input@, pos as int, p);
    }
    i
}

/// End of the run of bytes before the first `(` at or after `pos`.
pub open spec fn paren_start(s: Seq<u8>, pos: int) -> int {
    scan_while(s, pos, |b: u8| b != 40)
}

/// Executable scanner for [`paren_start`].
#[verifier::loop_isolation(false)]
pub fn scan_to_paren(input: &[u8], pos: usize) -> (r: usize)
    requires
        pos <= input@.len(),
    ensures
        r as int == paren_start(input@, pos as int),
        pos <= r <= input@.len(),
{
    let ghost p = |b: u8| b != 40;
    let mut i = pos;
    loop
        invariant
            pos <= i <= input@.len(),
            scan_while(input@, pos as int, p) == scan_while(input@, i as int, p),
        decreases input@.len() - i,
    {
        if i < input.len() && input[i] != 40 {
            proof {
                assert(p(input@[i as int]));
                assert(scan_while(input@, i as int, p) == scan_while(input@, i + 1, p));
            }
            i = i + 1;
        } else {
            proof {
                assert(scan_while(input@, i as int, p) == i as int);
            }
            break;
        }
    }
    proof {
        lemma_scan_while(input@, pos as int, p);
    }
    i
}

/// Where the line terminator at `pos` ends: a line feed, or a carriage return
/// followed by a line feed. `None` when no terminator starts at `pos`.
pub open spec fn spec_line_ending(s: Seq<u8>, pos: int) -> Option<int> {
    if 0 <= pos < s.len() && s[pos] == 10 {
        Some(pos + 1)
    } else if 0 <= pos && pos + 1 < s.len() && s[pos] == 13 && s[pos + 1] == 10 {
        Some(pos + 2)
    } else {
        None
    }
}

/// Executable mirror of [`spec_line_ending`].
pub fn take_line_ending(input: &[u8], pos: usize) -> (r: Option<usize>)
    requires
        pos <= input@.len(),
    ensures
        match r {
            Some(p) => spec_line_ending(input@, pos as int) == Some(p as int) && pos < p
                <= input@.len(),
            None => spec_line_ending(input@, pos as int) is None,
        },
{
    if pos < input.len() && input[pos] == 10 {
        Some(pos + 1)
    } else if pos < input.len() && input[pos] == 13 && pos + 1 < input.len() && input[pos + 1]
        == 10 {
        Some(pos + 2)
    } else {
        None
    }
}

/// One trimmed line: leading horizontal whitespace is skipped, the text runs
/// to the line terminator, and the terminator is consumed but not returned.
/// Reaching the end of input with no terminator is a failure.
pub open spec fn spec_text_line(s: Seq<u8>, pos: int) -> Result<(Seq<u8>, int), ParseError> {
    let i = space_end(s, pos);
    let j = line_text_end(s, i);
    match spec_line_ending(s, j) {
        Some(p) => Ok((s.subrange(i, j), p)),
        None => Err(ParseError::MalformedSection),
    }
}

/// Extracts one trimmed, terminator-ended line of text starting at `pos`.
pub fn text_line(input: &[u8], pos: usize) -> (r: Result<(Vec<u8>, usize), ParseError>)
    requires
        pos <= input@.len(),
    ensures
        match r {
            Ok((t, p)) => spec_text_line(input@, pos as int) == Ok::<_, ParseError>(
                (t@, p as int),
            ) && pos < p <= input@.len(),
            Err(e) => spec_text_line(input@, pos as int) == Err::<(Seq<u8>, int), _>(e),
        },
{
    let i = scan_space(input, pos);
    let j = scan_line_text(input, i);
    match take_line_ending(input, j) {
        Some(p) => {
            let mut t: Vec<u8> = Vec::new();
            let mut k = i;
            while k < j
                invariant
                    i <= k <= j <= input@.len(),
                    t@ == input@.subrange(i as int, k as int),
                decreases j - k,
            {
                t.push(input[k]);
                proof {
                    assert(t@ == input@.subrange(i as int, k + 1));
                }
                k = k + 1;
            }
            Ok((t, p))
        },
        None => Err(ParseError::MalformedSection),
    }
}

} // verus!

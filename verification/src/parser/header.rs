//! The header parser: the report title, the program-invocation line, and the
//! two aggregate statistics lines, in that fixed order with a blank line
//! after the title and after the program line.
//!
//! A failure at any step aborts header parsing; no partial header is ever
//! returned.
use vstd::prelude::*;
use crate::parser::lex::{
    digit_start, is_space_byte, line_text_end, paren_start, scan_line_text, scan_space,
    scan_to_digit, scan_to_paren, space_end, spec_line_ending, spec_text_line, take_line_ending,
    text_line, ParseError,
};
use crate::parser::num::{
    parse_num, parse_num_decimal, parse_num_u16, parse_num_u32, parse_num_u8, spec_parse_decimal,
    spec_parse_u16, spec_parse_u32, spec_parse_u64, spec_parse_u8, Decimal,
};

verus! {

/// The aggregate running-time statistics of the report: elapsed seconds,
/// tick count, sampling frequency and processor count.
#[derive(Clone, Copy, Debug, PartialEq, Eq, Structural)]
pub struct TotalTime {
    pub time: Decimal,
    pub ticks: u32,
    pub freq: u16,
    pub procs: u8,
}

/// The aggregate allocation statistic of the report: total bytes allocated.
#[derive(Clone, Copy, Debug, PartialEq, Eq, Structural)]
pub struct TotalAlloc {
    pub bytes: u64,
}

/// The parsed report header.
#[derive(Debug, PartialEq)]
pub struct Header {
    pub title: Vec<u8>,
    pub program: Vec<u8>,
    pub total_time: TotalTime,
    pub total_alloc: TotalAlloc,
}

/// The mathematical model of a [`Header`].
pub ghost struct HeaderV {
    pub title: Seq<u8>,
    pub program: Seq<u8>,
    pub total_time: TotalTime,
    pub total_alloc: TotalAlloc,
}

impl View for Header {
    type V = HeaderV;

    open spec fn view(&self) -> HeaderV {
        HeaderV {
            title: self.title@,
            program: self.program@,
            total_time: self.total_time,
            total_alloc: self.total_alloc,
        }
    }
}

/// The total-time line: leading whitespace, text up to the first digit, the
/// seconds as a decimal, text up to and past `(`, the ticks, then the
/// sampling frequency and the processor count each after a skip to the next
/// digit; the rest of the line is discarded.
pub open spec fn spec_total_time(s: Seq<u8>, pos: int) -> Result<(TotalTime, int), ParseError> {
    if !(0 <= pos < s.len() && is_space_byte(s[pos])) {
        Err(ParseError::MalformedSection)
    } else {
        let i2 = digit_start(s, space_end(s, pos));
        match spec_parse_decimal(s, i2) {
            Err(e) => Err(e),
            Ok((time, i3)) => {
                let i4 = paren_start(s, i3);
                if i4 >= s.len() {
                    Err(ParseError::MalformedSection)
                } else {
                    match spec_parse_u32(s, i4 + 1) {
                        Err(e) => Err(e),
                        Ok((ticks, i5)) => match spec_parse_u16(s, digit_start(s, i5)) {
                            Err(e) => Err(e),
                            Ok((freq, i7)) => match spec_parse_u8(s, digit_start(s, i7)) {
                                Err(e) => Err(e),
                                Ok((procs, i9)) => match spec_line_ending(
                                    s,
                                    line_text_end(s, i9),
                                ) {
                                    Some(p) => Ok((TotalTime { time, ticks, freq, procs }, p)),
                                    None => Err(ParseError::MalformedSection),
                                },
                            },
                        },
                    }
                }
            },
        }
    }
}

/// The total-alloc line: leading whitespace, text up to the first digit, the
/// byte count as an integer with thousands separators; the rest of the line
/// is discarded.
pub open spec fn spec_total_alloc(s: Seq<u8>, pos: int) -> Result<(TotalAlloc, int), ParseError> {
    if !(0 <= pos < s.len() && is_space_byte(s[pos])) {
        Err(ParseError::MalformedSection)
    } else {
        let i2 = digit_start(s, space_end(s, pos));
        match spec_parse_u64(s, i2) {
            Err(e) => Err(e),
            Ok((bytes, i3)) => match spec_line_ending(s, line_text_end(s, i3)) {
                Some(p) => Ok((TotalAlloc { bytes }, p)),
                None => Err(ParseError::MalformedSection),
            },
        }
    }
}

/// The header block: title line, blank line, program line, blank line,
/// total-time line, total-alloc line.
pub open spec fn spec_parse_header(s: Seq<u8>, pos: int) -> Result<(HeaderV, int), ParseError> {
    match spec_text_line(s, pos) {
        Err(e) => Err(e),
        Ok((title, p1)) => match spec_line_ending(s, p1) {
            None => Err(ParseError::MalformedSection),
            Some(p2) => match spec_text_line(s, p2) {
                Err(e) => Err(e),
                Ok((program, p3)) => match spec_line_ending(s, p3) {
                    None => Err(ParseError::MalformedSection),
                    Some(p4) => match spec_total_time(s, p4) {
                        Err(e) => Err(e),
                        Ok((total_time, p5)) => match spec_total_alloc(s, p5) {
                            Err(e) => Err(e),
                            Ok((total_alloc, p6)) => Ok(
                                (HeaderV { title, program, total_time, total_alloc }, p6),
                            ),
                        },
                    },
                },
            },
        },
    }
}

/// Parses the total-time line starting at `pos`.
pub fn total_time(input: &[u8], pos: usize) -> (r: Result<(TotalTime, usize), ParseError>)
    requires
        pos <= input@.len(),
    ensures
        (match r {
            Ok((v, p)) => spec_total_time(input@, pos as int) == Ok::<_, ParseError>(
                (v, p as int),
            ) && pos <= p <= input@.len(),
            Err(e) => spec_total_time(input@, pos as int) == Err::<(TotalTime, int), _>(e),
        }),
{
    if !(pos < input.len() && crate::parser::lex::is_space(input[pos])) {
        return Err(ParseError::MalformedSection);
    }
    let i1 = scan_space(input, pos);
    let i2 = scan_to_digit(input, i1);
    let (time, i3) = match parse_num_decimal(input, i2) {
        Ok(v) => v,
        Err(e) => { return Err(e) },
    };
    let i4 = scan_to_paren(input, i3);
    if i4 >= input.len() {
        return Err(ParseError::MalformedSection);
    }
    let (ticks, i5) = match parse_num_u32(input, i4 + 1) {
        Ok(v) => v,
        Err(e) => { return Err(e) },
    };
    let i6 = scan_to_digit(input, i5);
    let (freq, i7) = match parse_num_u16(input, i6) {
        Ok(v) => v,
        Err(e) => { return Err(e) },
    };
    let i8 = scan_to_digit(input, i7);
    let (procs, i9) = match parse_num_u8(input, i8) {
        Ok(v) => v,
        Err(e) => { return Err(e) },
    };
    let i10 = scan_line_text(input, i9);
    match take_line_ending(input, i10) {
        Some(p) => Ok((TotalTime { time, ticks, freq, procs }, p)),
        None => Err(ParseError::MalformedSection),
    }
}

/// Parses the total-alloc line starting at `pos`.
pub fn total_alloc(input: &[u8], pos: usize) -> (r: Result<(TotalAlloc, usize), ParseError>)
    requires
        pos <= input@.len(),
    ensures
        (match r {
            Ok((v, p)) => spec_total_alloc(input@, pos as int) == Ok::<_, ParseError>(
                (v, p as int),
            ) && pos <= p <= input@.len(),
            Err(e) => spec_total_alloc(input@, pos as int) == Err::<(TotalAlloc, int), _>(e),
        }),
{
    if !(pos < input.len() && crate::parser::lex::is_space(input[pos])) {
        return Err(ParseError::MalformedSection);
    }
    let i1 = scan_space(input, pos);
    let i2 = scan_to_digit(input, i1);
    let (bytes, i3) = match parse_num(input, i2) {
        Ok(v) => v,
        Err(e) => { return Err(e) },
    };
    let i4 = scan_line_text(input, i3);
    match take_line_ending(input, i4) {
        Some(p) => Ok((TotalAlloc { bytes }, p)),
        None => Err(ParseError::MalformedSection),
    }
}

/// Parses the whole header block starting at `pos`.
pub fn parse_header(input: &[u8], pos: usize) -> (r: Result<(Header, usize), ParseError>)
    requires
        pos <= input@.len(),
    ensures
        (match r {
            Ok((h, p)) => spec_parse_header(input@, pos as int) == Ok::<_, ParseError>(
                (h@, p as int),
            ) && pos <= p <= input@.len(),
            Err(e) => spec_parse_header(input@, pos as int) == Err::<(HeaderV, int), _>(e),
        }),
{
    let (title, p1) = match text_line(input, pos) {
        Ok(v) => v,
        Err(e) => { return Err(e) },
    };
    let p2 = match take_line_ending(input, p1) {
        Some(p) => p,
        None => { return Err(ParseError::MalformedSection) },
    };
    let (program, p3) = match text_line(input, p2) {
        Ok(v) => v,
        Err(e) => { return Err(e) },
    };
    let p4 = match take_line_ending(input, p3) {
        Some(p) => p,
        None => { return Err(ParseError::MalformedSection) },
    };
    let (tt, p5) = match total_time(input, p4) {
        Ok(v) => v,
        Err(e) => { return Err(e) },
    };
    let (ta, p6) = match total_alloc(input, p5) {
        Ok(v) => v,
        Err(e) => { return Err(e) },
    };
    Ok((Header { title, program, total_time: tt, total_alloc: ta }, p6))
}

} // verus!

//! The flat summary parser: a blank-line-terminated run of per-cost-centre
//! rows, and the separator block between the flat and extended summaries.
//!
//! One row is: a whitespace-delimited cost-centre token, mandatory
//! whitespace, a module token, then the time and alloc percentages, then the
//! line terminator. The section is the maximal run of such rows; the blank
//! line that ends it is consumed and is part of no row. Zero rows are
//! acceptable only when the terminator is still present.
use vstd::prelude::*;
use crate::parser::lex::{
    scan_space, scan_token, space_end, spec_line_ending, spec_text_line, take_line_ending,
    text_line, token_end, ParseError,
};
use crate::parser::num::{parse_num_decimal, spec_parse_decimal, Decimal};
use crate::parser::header::{parse_header, spec_parse_header, Header, HeaderV};

verus! {

/// One flat-summary row.
#[derive(Clone, Debug, PartialEq)]
pub struct SummaryLine {
    pub cost_centre: Vec<u8>,
    pub module: Vec<u8>,
    pub time_perc: Decimal,
    pub alloc_perc: Decimal,
}

/// The mathematical model of a [`SummaryLine`].
pub ghost struct SummaryLineV {
    pub cost_centre: Seq<u8>,
    pub module: Seq<u8>,
    pub time_perc: Decimal,
    pub alloc_perc: Decimal,
}

impl View for SummaryLine {
    type V = SummaryLineV;

    open spec fn view(&self) -> SummaryLineV {
        SummaryLineV {
            cost_centre: self.cost_centre@,
            module: self.module@,
            time_perc: self.time_perc,
            alloc_perc: self.alloc_perc,
        }
    }
}

/// The flat summary: its rows in source order.
#[derive(Clone, Debug, PartialEq)]
pub struct Summary(pub Vec<SummaryLine>);

impl View for Summary {
    type V = Seq<SummaryLineV>;

    open spec fn view(&self) -> Seq<SummaryLineV> {
        self.0@.map_values(|l: SummaryLine| l@)
    }
}

/// One flat-summary row starting at `pos`: cost-centre token, at least one
/// space or tab, module token, optional whitespace, time percentage,
/// optional whitespace, alloc percentage, line terminator.
pub open spec fn spec_parse_summary_line(s: Seq<u8>, pos: int) -> Result<
    (SummaryLineV, int),
    ParseError,
> {
    let a = token_end(s, pos);
    if a >= s.len() {
        Err(ParseError::MalformedSection)
    } else {
        let b = space_end(s, a);
        let c = token_end(s, b);
        let d = space_end(s, c);
        match spec_parse_decimal(s, d) {
            Err(e) => Err(e),
            Ok((time_perc, e1)) => {
                let f = space_end(s, e1);
                match spec_parse_decimal(s, f) {
                    Err(e) => Err(e),
                    Ok((alloc_perc, g)) => match spec_line_ending(s, g) {
                        Some(p) => Ok(
                            (
                                SummaryLineV {
                                    cost_centre: s.subrange(pos, a),
                                    module: s.subrange(b, c),
                                    time_perc,
                                    alloc_perc,
                                },
                                p,
                            ),
                        ),
                        None => Err(ParseError::MalformedSection),
                    },
                }
            },
        }
    }
}

/// A successfully parsed row ends strictly after it began and inside the
/// buffer.
pub proof fn lemma_summary_line_advances(s: Seq<u8>, pos: int)
    requires
        0 <= pos <= s.len(),
    ensures
        (match spec_parse_summary_line(s, pos) {
            Ok((l, p)) => pos < p <= s.len(),
            Err(e) => true,
        }),
{
    crate::parser::lex::lemma_scan_while(s, pos, |b: u8| !crate::parser::lex::is_space_byte(b));
    let a = token_end(s, pos);
    if a < s.len() {
        crate::parser::lex::lemma_scan_while(s, a, |b: u8| crate::parser::lex::is_space_byte(b));
        let b = space_end(s, a);
        crate::parser::lex::lemma_scan_while(s, b, |b: u8| !crate::parser::lex::is_space_byte(b));
        let c = token_end(s, b);
        crate::parser::lex::lemma_scan_while(s, c, |b: u8| crate::parser::lex::is_space_byte(b));
        let d = space_end(s, c);
        crate::parser::lex::lemma_scan_while(s, d, |b: u8| crate::parser::lex::is_numlike_byte(b));
        match spec_parse_decimal(s, d) {
            Err(_) => {
            },
            Ok((_, e1)) => {
                crate::parser::lex::lemma_scan_while(
                    s,
                    e1,
                    |b: u8| crate::parser::lex::is_space_byte(b),
                );
                let f = space_end(s, e1);
                crate::parser::lex::lemma_scan_while(
                    s,
                    f,
                    |b: u8| crate::parser::lex::is_numlike_byte(b),
                );
            },
        }
    }
}

/// The flat-summary section starting at `pos`: a terminating blank line
/// yields the rows collected so far; otherwise one more row is parsed and
/// the section continues after it.
pub open spec fn spec_parse_summary(s: Seq<u8>, pos: int) -> Result<
    (Seq<SummaryLineV>, int),
    ParseError,
>
    decreases s.len() - pos,
    when 0 <= pos <= s.len()
    via spec_parse_summary_dec
{
    match spec_line_ending(s, pos) {
        Some(p) => Ok((Seq::empty(), p)),
        None => match spec_parse_summary_line(s, pos) {
            Err(e) => Err(e),
            Ok((line, p2)) => match spec_parse_summary(s, p2) {
                Err(e) => Err(e),
                Ok((rest, p3)) => Ok((seq![line] + rest, p3)),
            },
        },
    }
}

#[via_fn]
proof fn spec_parse_summary_dec(s: Seq<u8>, pos: int) {
    lemma_summary_line_advances(s, pos);
}

/// Joins an already-parsed prefix of rows onto the outcome for the rest of
/// the section.
pub open spec fn prepend_rows(
    pre: Seq<SummaryLineV>,
    r: Result<(Seq<SummaryLineV>, int), ParseError>,
) -> Result<(Seq<SummaryLineV>, int), ParseError> {
    match r {
        Ok((rest, p)) => Ok((pre + rest, p)),
        Err(e) => Err(e),
    }
}

/// Parses one flat-summary row starting at `pos`.
pub fn parse_summary_line(input: &[u8], pos: usize) -> (r: Result<
    (SummaryLine, usize),
    ParseError,
>)
    requires
        pos <= input@.len(),
    ensures
        (match r {
            Ok((l, p)) => spec_parse_summary_line(input@, pos as int) == Ok::<_, ParseError>(
                (l@, p as int),
            ) && pos < p <= input@.len(),
            Err(e) => spec_parse_summary_line(input@, pos as int) == Err::<
                (SummaryLineV, int),
                _,
            >(e),
        }),
{
    proof {
        lemma_summary_line_advances(input@, pos as int);
    }
    let a = scan_token(input, pos);
    if a >= input.len() {
        return Err(ParseError::MalformedSection);
    }
    let b = scan_space(input, a);
    let c = scan_token(input, b);
    let d = scan_space(input, c);
    let (time_perc, e1) = match parse_num_decimal(input, d) {
        Ok(v) => v,
        Err(e) => { return Err(e) },
    };
    let f = scan_space(input, e1);
    let (alloc_perc, g) = match parse_num_decimal(input, f) {
        Ok(v) => v,
        Err(e) => { return Err(e) },
    };
    match take_line_ending(input, g) {
        Some(p) => {
            let cost_centre = copy_range(input, pos, a);
            let module = copy_range(input, b, c);
            Ok((SummaryLine { cost_centre, module, time_perc, alloc_perc }, p))
        },
        None => Err(ParseError::MalformedSection),
    }
}

/// Copies the bytes of `input` between `from` and `to` into a fresh vector.
pub fn copy_range(input: &[u8], from: usize, to: usize) -> (r: Vec<u8>)
    requires
        from <= to <= input@.len(),
    ensures
        r@ == input@.subrange(from as int, to as int),
{
    let mut t: Vec<u8> = Vec::new();
    let mut k = from;
    while k < to
        invariant
            from <= k <= to <= input@.len(),
            t@ == input@.subrange(from as int, k as int),
        decreases to - k,
    {
        t.push(input[k]);
        proof {
            assert(t@ == input@.subrange(from as int, k + 1));
        }
        k = k + 1;
    }
    t
}

/// Parses the flat-summary section starting at `pos`: the maximal run of
/// rows, terminated by a consumed blank line.
#[verifier::loop_isolation(false)]
pub fn parse_summary(input: &[u8], pos: usize) -> (r: Result<(Summary, usize), ParseError>)
    requires
        pos <= input@.len(),
    ensures
        (match r {
            Ok((sum, p)) => spec_parse_summary(input@, pos as int) == Ok::<_, ParseError>(
                (sum@, p as int),
            ) && pos <= p <= input@.len(),
            Err(e) => spec_parse_summary(input@, pos as int) == Err::<
                (Seq<SummaryLineV>, int),
                _,
            >(e),
        }),
{
    let ghost s = input@;
    let mut lines: Vec<SummaryLine> = Vec::new();
    let mut i = pos;
    loop
        invariant
            pos <= i <= input@.len(),
            spec_parse_summary(s, pos as int) == prepend_rows(
                lines@.map_values(|l: SummaryLine| l@),
                spec_parse_summary(s, i as int),
            ),
        decreases input@.len() - i,
    {
        match take_line_ending(input, i) {
            Some(p) => {
                proof {
                    assert(spec_parse_summary(s, i as int) == Ok::<_, ParseError>(
                        (Seq::<SummaryLineV>::empty(), p as int),
                    ));
                    assert(lines@.map_values(|l: SummaryLine| l@) + Seq::<
                        SummaryLineV,
                    >::empty() =~= lines@.map_values(|l: SummaryLine| l@));
                }
                return Ok((Summary(lines), p));
            },
            None => {
                match parse_summary_line(input, i) {
                    Err(e) => {
                        proof {
                            assert(spec_parse_summary(s, i as int) == Err::<
                                (Seq<SummaryLineV>, int),
                                _,
                            >(e));
                        }
                        return Err(e);
                    },
                    Ok((line, p2)) => {
                        proof {
                            let pre = lines@.map_values(|l: SummaryLine| l@);
                            assert(spec_parse_summary(s, i as int) == prepend_rows(
                                seq![line@],
                                spec_parse_summary(s, p2 as int),
                            ));
                            assert(lines@.push(line).map_values(|l: SummaryLine| l@) =~= pre
                                + seq![line@]);
                            assert(forall|rest: Seq<SummaryLineV>|
                                (pre + seq![line@]) + rest =~= pre + (seq![line@] + rest));
                        }
                        lines.push(line);
                        i = p2;
                    },
                }
            },
        }
    }
}

/// The separator between the two summaries: a blank line, exactly two
/// discarded column-header lines, and a blank line. Only the shape is
/// validated; the position after the block is returned.
pub open spec fn spec_summaries_sep(s: Seq<u8>, pos: int) -> Result<int, ParseError> {
    match spec_line_ending(s, pos) {
        None => Err(ParseError::MalformedSection),
        Some(p1) => match spec_text_line(s, p1) {
            Err(e) => Err(e),
            Ok((h1, p2)) => match spec_text_line(s, p2) {
                Err(e) => Err(e),
                Ok((h2, p3)) => match spec_line_ending(s, p3) {
                    None => Err(ParseError::MalformedSection),
                    Some(p4) => Ok(p4),
                },
            },
        },
    }
}

/// Consumes the blank/header/header/blank separator block starting at `pos`.
pub fn parse_summaries_sep(input: &[u8], pos: usize) -> (r: Result<usize, ParseError>)
    requires
        pos <= input@.len(),
    ensures
        (match r {
            Ok(p) => spec_summaries_sep(input@, pos as int) == Ok::<_, ParseError>(p as int)
                && pos <= p <= input@.len(),
            Err(e) => spec_summaries_sep(input@, pos as int) == Err::<int, _>(e),
        }),
{
    let p1 = match take_line_ending(input, pos) {
        Some(p) => p,
        None => { return Err(ParseError::MalformedSection) },
    };
    let (_h1, p2) = match text_line(input, p1) {
        Ok(v) => v,
        Err(e) => { return Err(e) },
    };
    let (_h2, p3) = match text_line(input, p2) {
        Ok(v) => v,
        Err(e) => { return Err(e) },
    };
    match take_line_ending(input, p3) {
        Some(p4) => Ok(p4),
        None => Err(ParseError::MalformedSection),
    }
}

/// The header followed by the flat summary: the header block, a blank line,
/// one discarded column-header line, a blank line, then the rows.
pub open spec fn spec_header_and_summary(s: Seq<u8>, pos: int) -> Result<
    ((HeaderV, Seq<SummaryLineV>), int),
    ParseError,
> {
    match spec_parse_header(s, pos) {
        Err(e) => Err(e),
        Ok((h, p1)) => match spec_line_ending(s, p1) {
            None => Err(ParseError::MalformedSection),
            Some(p2) => match spec_text_line(s, p2) {
                Err(e) => Err(e),
                Ok((col, p3)) => match spec_line_ending(s, p3) {
                    None => Err(ParseError::MalformedSection),
                    Some(p4) => match spec_parse_summary(s, p4) {
                        Err(e) => Err(e),
                        Ok((rows, p5)) => Ok(((h, rows), p5)),
                    },
                },
            },
        },
    }
}

/// Parses the header and the flat summary starting at `pos`.
pub fn parse_header_and_summary(input: &[u8], pos: usize) -> (r: Result<
    ((Header, Summary), usize),
    ParseError,
>)
    requires
        pos <= input@.len(),
    ensures
        (match r {
            Ok(((h, sum), p)) => spec_header_and_summary(input@, pos as int) == Ok::<
                _,
                ParseError,
            >(((h@, sum@), p as int)) && pos <= p <= input@.len(),
            Err(e) => spec_header_and_summary(input@, pos as int) == Err::<
                ((HeaderV, Seq<SummaryLineV>), int),
                _,
            >(e),
        }),
{
    let (h, p1) = match parse_header(input, pos) {
        Ok(v) => v,
        Err(e) => { return Err(e) },
    };
    let p2 = match take_line_ending(input, p1) {
        Some(p) => p,
        None => { return Err(ParseError::MalformedSection) },
    };
    let (_col, p3) = match text_line(input, p2) {
        Ok(v) => v,
        Err(e) => { return Err(e) },
    };
    let p4 = match take_line_ending(input, p3) {
        Some(p) => p,
        None => { return Err(ParseError::MalformedSection) },
    };
    let (rows, p5) = match parse_summary(input, p4) {
        Ok(v) => v,
        Err(e) => { return Err(e) },
    };
    Ok(((h, rows), p5))
}

} // verus!

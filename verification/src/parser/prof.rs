//! The report assembler: header, flat summary, separator and extended
//! summary in sequence, threading the unconsumed remainder through each
//! stage. Any stage failure aborts the whole assembly; no partial report is
//! ever returned.
use vstd::prelude::*;
use crate::parser::lex::ParseError;
use crate::parser::header::{Header, HeaderV};
use crate::parser::summary::{
    parse_header_and_summary, spec_header_and_summary, Summary, SummaryLineV,
};
use crate::parser::tree::{
    parse_extended_summary, spec_parse_extended_summary, ExtendedSummary, ExtendedSummaryLineV,
    RoseTreeV,
};

verus! {

/// One fully parsed report. Immutable once built.
#[derive(Debug, PartialEq)]
pub struct GHCProf {
    pub header: Header,
    pub summary: Summary,
    pub extended_summary: ExtendedSummary,
}

/// The mathematical model of a [`GHCProf`].
pub ghost struct GHCProfV {
    pub header: HeaderV,
    pub summary: Seq<SummaryLineV>,
    pub extended_summary: Seq<RoseTreeV<ExtendedSummaryLineV>>,
}

impl View for GHCProf {
    type V = GHCProfV;

    open spec fn view(&self) -> GHCProfV {
        GHCProfV {
            header: self.header@,
            summary: self.summary@,
            extended_summary: self.extended_summary@,
        }
    }
}

/// The whole report starting at `pos`: header and flat summary, then the
/// separator block, then the extended summary. Bytes after the extended
/// summary's last row are left unconsumed.
pub open spec fn spec_parse_prof(s: Seq<u8>, pos: int) -> Result<(GHCProfV, int), ParseError> {
    match spec_header_and_summary(s, pos) {
        Err(e) => Err(e),
        Ok(((header, summary), p1)) => match crate::parser::summary::spec_summaries_sep(s, p1) {
            Err(e) => Err(e),
            Ok(p2) => match spec_parse_extended_summary(s, p2) {
                Err(e) => Err(e),
                Ok((extended_summary, p3)) => Ok(
                    (GHCProfV { header, summary, extended_summary }, p3),
                ),
            },
        },
    }
}

/// Parses one whole report starting at `pos`.
pub fn parse_prof(input: &[u8], pos: usize) -> (r: Result<(GHCProf, usize), ParseError>)
    requires
        pos <= input@.len(),
    ensures
        (match r {
            Ok((prof, p)) => spec_parse_prof(input@, pos as int) == Ok::<_, ParseError>(
                (prof@, p as int),
            ) && pos <= p <= input@.len(),
            Err(e) => spec_parse_prof(input@, pos as int) == Err::<(GHCProfV, int), _>(e),
        }),
{
    let ((header, summary), p1) = match parse_header_and_summary(input, pos) {
        Ok(v) => v,
        Err(e) => { return Err(e) },
    };
    let p2 = match crate::parser::summary::parse_summaries_sep(input, p1) {
        Ok(p) => p,
        Err(e) => { return Err(e) },
    };
    let (extended_summary, p3) = match parse_extended_summary(input, p2) {
        Ok(v) => v,
        Err(e) => { return Err(e) },
    };
    Ok((GHCProf { header, summary, extended_summary }, p3))
}

/// What [`parse_prof_file`] returns: the report of a buffer that parses
/// from its start, and nothing of one that does not.
pub open spec fn spec_parse_prof_file(s: Seq<u8>) -> Option<GHCProfV> {
    match spec_parse_prof(s, 0) {
        Ok((prof, _)) => Some(prof),
        Err(_) => None,
    }
}

/// Parses a whole report from the start of `content`. A failure anywhere in
/// the pipeline yields `None`; no partial report is ever returned.
pub fn parse_prof_file(content: &[u8]) -> (r: Option<GHCProf>)
    ensures
        (match r {
            Some(prof) => spec_parse_prof_file(content@) == Some(prof@),
            None => spec_parse_prof_file(content@) is None,
        }),
{
    match parse_prof(content, 0) {
        Ok((prof, _)) => Some(prof),
        Err(_) => None,
    }
}

} // verus!

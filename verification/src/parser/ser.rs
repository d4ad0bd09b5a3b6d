//! Canonical text for a parsed report.
//!
//! The writer emits the sparsest text the grammar accepts: single spaces
//! between fields, bare blank lines for the separators, and numbers without
//! thousands separators. Field values survive unchanged; spacing and layout
//! are not meant to match the source byte for byte.
use vstd::prelude::*;
use crate::parser::header::{Header, HeaderV, TotalAlloc, TotalTime};
use crate::parser::num::{fold_digits, Decimal};
use crate::parser::summary::{Summary, SummaryLine, SummaryLineV};
use crate::parser::tree::{forest_view, lemma_forest_view, tree_view, ExtendedSummary,
    ExtendedSummaryLine, ExtendedSummaryLineV, RoseTree, RoseTreeV};
use crate::parser::prof::{GHCProf, GHCProfV};

verus! {

/// The decimal digit string of `n`, most significant digit first.
pub open spec fn digits_of(n: nat) -> Seq<u8>
    decreases n,
{
    if n < 10 {
        seq![(48 + n) as u8]
    } else {
        digits_of(n / 10).push((48 + n % 10) as u8)
    }
}

/// `k` copies of one byte.
pub open spec fn repeated(k: nat, b: u8) -> Seq<u8> {
    Seq::new(k, |i: int| b)
}

/// A [`Decimal`] written canonically: the mantissa digits, zero-padded on
/// the left so that at least one digit stands before the point, with the
/// point inserted before the last `scale` digits; no point when the scale
/// is zero.
pub open spec fn ser_decimal(d: Decimal) -> Seq<u8> {
    let ds = digits_of(d.mantissa as nat);
    if d.scale == 0 {
        ds
    } else {
        let padded = if ds.len() > d.scale {
            ds
        } else {
            repeated((d.scale + 1 - ds.len()) as nat, 48) + ds
        };
        let cut = padded.len() - d.scale;
        padded.take(cut as int) + seq![46u8] + padded.skip(cut as int)
    }
}

/// The canonical total-time line: a space, the seconds, `(`, the ticks, a
/// space, the frequency, a space, the processor count, a line feed.
pub open spec fn ser_total_time(tt: TotalTime) -> Seq<u8> {
    seq![32u8] + (ser_decimal(tt.time) + (seq![40u8] + (digits_of(tt.ticks as nat) + (seq![32u8]
        + (digits_of(tt.freq as nat) + (seq![32u8] + (digits_of(tt.procs as nat)
        + seq![10u8])))))))
}

/// The canonical total-alloc line: a space, the byte count, a line feed.
pub open spec fn ser_total_alloc(ta: TotalAlloc) -> Seq<u8> {
    seq![32u8] + (digits_of(ta.bytes as nat) + seq![10u8])
}

/// The canonical header block: title line, blank line, program line, blank
/// line, total-time line, total-alloc line.
pub open spec fn ser_header(h: HeaderV) -> Seq<u8> {
    (h.title + seq![10u8]) + (seq![10u8] + ((h.program + seq![10u8]) + (seq![10u8] + (
    ser_total_time(h.total_time) + ser_total_alloc(h.total_alloc)))))
}

/// One canonical flat-summary row.
pub open spec fn ser_summary_row(l: SummaryLineV) -> Seq<u8> {
    l.cost_centre + (seq![32u8] + (l.module + (seq![32u8] + (ser_decimal(l.time_perc) + (
    seq![32u8] + (ser_decimal(l.alloc_perc) + seq![10u8]))))))
}

/// The canonical flat summary from row `i` on, closed by the blank line
/// that terminates the section.
pub open spec fn ser_summary_from(rows: Seq<SummaryLineV>, i: int) -> Seq<u8>
    decreases rows.len() - i,
    when i >= 0
{
    if i >= rows.len() {
        seq![10u8]
    } else {
        ser_summary_row(rows[i]) + ser_summary_from(rows, i + 1)
    }
}

/// One canonical extended-summary row: the indentation run whose length is
/// the depth, then the eight fields separated by single spaces.
pub open spec fn ser_ext_row(depth: nat, l: ExtendedSummaryLineV) -> Seq<u8> {
    repeated(depth, 32) + (l.cost_centre + (seq![32u8] + (l.module + (seq![32u8] + (digits_of(
        l.no as nat,
    ) + (seq![32u8] + (digits_of(l.entries as nat) + (seq![32u8] + (ser_decimal(
        l.individual_time_perc,
    ) + (seq![32u8] + (ser_decimal(l.individual_alloc_perc) + (seq![32u8] + (ser_decimal(
        l.inherited_time_perc,
    ) + (seq![32u8] + (ser_decimal(l.inherited_alloc_perc) + seq![10u8])))))))))))))))
}

/// One canonical subtree: the node's row, then its children in order.
pub open spec fn ser_tree(t: RoseTreeV<ExtendedSummaryLineV>) -> Seq<u8>
    decreases t, 0int,
{
    ser_ext_row(t.depth, t.value) + ser_forest_from(t.sub_forest, 0)
}

/// A canonical forest from tree `i` on.
pub open spec fn ser_forest_from(f: Seq<RoseTreeV<ExtendedSummaryLineV>>, i: int) -> Seq<u8>
    decreases f, f.len() - i,
{
    if i < 0 || i >= f.len() {
        Seq::empty()
    } else {
        ser_tree(f[i]) + ser_forest_from(f, i + 1)
    }
}

/// The canonical text of a whole report: the header, a blank line, an empty
/// column-header line, a blank line, the flat summary with its terminator,
/// the blank/header/header/blank separator as four bare line feeds, then
/// the extended summary.
pub open spec fn ser_prof(p: GHCProfV) -> Seq<u8> {
    ser_header(p.header) + (seq![10u8] + (seq![10u8] + (seq![10u8] + (ser_summary_from(
        p.summary,
        0,
    ) + (seq![10u8] + (seq![10u8] + (seq![10u8] + (seq![10u8] + ser_forest_from(
        p.extended_summary,
        0,
    )))))))))
}

/// Appends the digit string of `n`.
pub fn push_digits(out: &mut Vec<u8>, n: u64)
    ensures
        final(out)@ == old(out)@ + digits_of(n as nat),
    decreases n,
{
    if n < 10 {
        out.push(48 + n as u8);
        proof {
            assert(old(out)@.push((48 + n) as u8) =~= old(out)@ + digits_of(n as nat));
        }
    } else {
        push_digits(out, n / 10);
        out.push(48 + (n % 10) as u8);
        proof {
            assert((old(out)@ + digits_of((n / 10) as nat)).push((48 + n % 10) as u8) =~= old(
                out,
            )@ + digits_of(n as nat));
        }
    }
}

/// Appends `count` copies of byte `b`.
pub fn push_repeated(out: &mut Vec<u8>, count: usize, b: u8)
    ensures
        final(out)@ == old(out)@ + repeated(count as nat, b),
{
    let mut k: usize = 0;
    while k < count
        invariant
            0 <= k <= count,
            out@ == old(out)@ + repeated(k as nat, b),
        decreases count - k,
    {
        out.push(b);
        proof {
            assert((old(out)@ + repeated(k as nat, b)).push(b) =~= old(out)@ + repeated(
                (k + 1) as nat,
                b,
            ));
        }
        k = k + 1;
    }
    proof {
        assert(repeated(k as nat, b) =~= repeated(count as nat, b));
    }
}

/// Appends a copy of `v`.
pub fn push_bytes(out: &mut Vec<u8>, v: &Vec<u8>)
    ensures
        final(out)@ == old(out)@ + v@,
{
    let mut k: usize = 0;
    while k < v.len()
        invariant
            0 <= k <= v@.len(),
            out@ == old(out)@ + v@.subrange(0, k as int),
        decreases v@.len() - k,
    {
        out.push(v[k]);
        proof {
            assert((old(out)@ + v@.subrange(0, k as int)).push(v@[k as int]) =~= old(out)@
                + v@.subrange(0, k + 1));
        }
        k = k + 1;
    }
    proof {
        assert(v@.subrange(0, v@.len() as int) =~= v@);
    }
}

/// Appends a canonical decimal.
pub fn push_decimal(out: &mut Vec<u8>, d: Decimal)
    ensures
        final(out)@ == old(out)@ + ser_decimal(d),
{
    if d.scale == 0 {
        push_digits(out, d.mantissa);
        return ;
    }
    let mut digs: Vec<u8> = Vec::new();
    push_digits(&mut digs, d.mantissa);
    proof {
        assert(Seq::<u8>::empty() + digits_of(d.mantissa as nat) =~= digits_of(
            d.mantissa as nat,
        ));
        lemma_digits_of_len(d.mantissa as nat);
    }
    let mut padded: Vec<u8> = Vec::new();
    if digs.len() <= d.scale {
        let pad = d.scale - digs.len() + 1;
        push_repeated(&mut padded, pad, 48);
        proof {
            assert(Seq::<u8>::empty() + repeated(pad as nat, 48) =~= repeated(pad as nat, 48));
        }
    }
    push_bytes(&mut padded, &digs);
    let ghost padded_spec = (if digs@.len() > d.scale {
        digs@
    } else {
        repeated((d.scale + 1 - digs@.len()) as nat, 48) + digs@
    });
    proof {
        if digs@.len() > d.scale {
            assert(Seq::<u8>::empty() + digs@ =~= digs@);
        }
        assert(padded@ == padded_spec);
        assert(padded@.len() > d.scale);
    }
    let cut = padded.len() - d.scale;
    let ghost before = out@;
    push_range(out, &padded, 0, cut);
    out.push(46);
    push_range(out, &padded, cut, padded.len());
    proof {
        assert(padded@.subrange(0, cut as int) =~= padded@.take(cut as int));
        assert(padded@.subrange(cut as int, padded@.len() as int) =~= padded@.skip(cut as int));
        assert(((before + padded@.take(cut as int)).push(46u8)) =~= before + padded@.take(
            cut as int,
        ) + seq![46u8]);
        assert(before + padded@.take(cut as int) + seq![46u8] + padded@.skip(cut as int) =~= before
            + (padded@.take(cut as int) + seq![46u8] + padded@.skip(cut as int)));
        assert(out@ == before + ser_decimal(d));
    }
}

/// Appends the bytes of `v` between `from` and `to`.
pub fn push_range(out: &mut Vec<u8>, v: &Vec<u8>, from: usize, to: usize)
    requires
        from <= to <= v@.len(),
    ensures
        final(out)@ == old(out)@ + v@.subrange(from as int, to as int),
{
    let mut k = from;
    while k < to
        invariant
            from <= k <= to <= v@.len(),
            out@ == old(out)@ + v@.subrange(from as int, k as int),
        decreases to - k,
    {
        out.push(v[k]);
        proof {
            assert((old(out)@ + v@.subrange(from as int, k as int)).push(v@[k as int]) =~= old(
                out,
            )@ + v@.subrange(from as int, k + 1));
        }
        k = k + 1;
    }
}

/// The digit string is non-empty and holds only digits; it folds back to
/// its number.
pub proof fn lemma_digits_of_len(n: nat)
    ensures
        digits_of(n).len() >= 1,
        forall|i: int|
            0 <= i < digits_of(n).len() ==> crate::parser::lex::is_digit_byte(digits_of(n)[i]),
        fold_digits(digits_of(n)) == n,
    decreases n,
{
    if n < 10 {
        crate::parser::num::lemma_singletons((48 + n) as u8);
    } else {
        lemma_digits_of_len(n / 10);
        let ds = digits_of(n / 10);
        let b = (48 + n % 10) as u8;
        assert(digits_of(n) == ds.push(b));
        assert(forall|i: int| 0 <= i < ds.len() ==> digits_of(n)[i] == ds[i]);
        assert(digits_of(n)[ds.len() as int] == b);
        assert(digits_of(n).drop_last() =~= ds);
        assert(fold_digits(digits_of(n)) == fold_digits(ds) * 10 + (b - 48));
    }
}

/// Appends the canonical total-time line.
pub fn serialize_total_time(out: &mut Vec<u8>, tt: &TotalTime)
    ensures
        final(out)@ == old(out)@ + ser_total_time(*tt),
{
    out.push(32);
    push_decimal(out, tt.time);
    out.push(40);
    push_digits(out, tt.ticks as u64);
    out.push(32);
    push_digits(out, tt.freq as u64);
    out.push(32);
    push_digits(out, tt.procs as u64);
    out.push(10);
    proof {
        assert(out@ =~= old(out)@ + ser_total_time(*tt));
    }
}

/// Appends the canonical total-alloc line.
pub fn serialize_total_alloc(out: &mut Vec<u8>, ta: &TotalAlloc)
    ensures
        final(out)@ == old(out)@ + ser_total_alloc(*ta),
{
    out.push(32);
    push_digits(out, ta.bytes);
    out.push(10);
    proof {
        assert(out@ =~= old(out)@ + ser_total_alloc(*ta));
    }
}

/// Appends the canonical header block.
pub fn serialize_header(out: &mut Vec<u8>, h: &Header)
    ensures
        final(out)@ == old(out)@ + ser_header(h@),
{
    push_bytes(out, &h.title);
    out.push(10);
    out.push(10);
    push_bytes(out, &h.program);
    out.push(10);
    out.push(10);
    serialize_total_time(out, &h.total_time);
    serialize_total_alloc(out, &h.total_alloc);
    proof {
        assert(out@ =~= old(out)@ + ser_header(h@));
    }
}

/// Appends one canonical flat-summary row.
pub fn serialize_summary_row(out: &mut Vec<u8>, l: &SummaryLine)
    ensures
        final(out)@ == old(out)@ + ser_summary_row(l@),
{
    push_bytes(out, &l.cost_centre);
    out.push(32);
    push_bytes(out, &l.module);
    out.push(32);
    push_decimal(out, l.time_perc);
    out.push(32);
    push_decimal(out, l.alloc_perc);
    out.push(10);
    proof {
        assert(out@ =~= old(out)@ + ser_summary_row(l@));
    }
}

/// Appends the canonical flat summary with its blank-line terminator.
#[verifier::loop_isolation(false)]
pub fn serialize_summary(out: &mut Vec<u8>, sum: &Summary)
    ensures
        final(out)@ == old(out)@ + ser_summary_from(sum@, 0),
{
    let ghost rv = sum@;
    let mut i: usize = 0;
    while i < sum.0.len()
        invariant
            0 <= i <= sum.0@.len(),
            rv.len() == sum.0@.len(),
            old(out)@ + ser_summary_from(rv, 0) =~= out@ + ser_summary_from(rv, i as int),
        decreases sum.0@.len() - i,
    {
        proof {
            assert(rv[i as int] == sum.0@[i as int]@);
            assert(ser_summary_from(rv, i as int) == ser_summary_row(rv[i as int])
                + ser_summary_from(rv, i + 1));
        }
        let ghost prev = out@;
        serialize_summary_row(out, &sum.0[i]);
        proof {
            assert(prev + (ser_summary_row(rv[i as int]) + ser_summary_from(rv, i + 1)) =~= (prev
                + ser_summary_row(rv[i as int])) + ser_summary_from(rv, i + 1));
        }
        i = i + 1;
    }
    out.push(10);
    proof {
        assert(ser_summary_from(rv, i as int) =~= seq![10u8]);
        assert(out@ =~= old(out)@ + ser_summary_from(rv, 0));
    }
}

/// Appends one canonical extended-summary row.
#[verifier::rlimit(60)]
pub fn serialize_ext_row(out: &mut Vec<u8>, depth: usize, l: &ExtendedSummaryLine)
    ensures
        final(out)@ == old(out)@ + ser_ext_row(depth as nat, l@),
{
    push_repeated(out, depth, 32);
    push_bytes(out, &l.cost_centre);
    out.push(32);
    push_bytes(out, &l.module);
    out.push(32);
    push_digits(out, l.no as u64);
    out.push(32);
    push_digits(out, l.entries as u64);
    out.push(32);
    push_decimal(out, l.individual_time_perc);
    out.push(32);
    push_decimal(out, l.individual_alloc_perc);
    out.push(32);
    push_decimal(out, l.inherited_time_perc);
    out.push(32);
    push_decimal(out, l.inherited_alloc_perc);
    out.push(10);
    proof {
        assert(out@ =~= old(out)@ + ser_ext_row(depth as nat, l@));
    }
}

/// Appends one canonical subtree: the node's row, then its children.
#[verifier::loop_isolation(false)]
pub fn serialize_tree(out: &mut Vec<u8>, t: &RoseTree<ExtendedSummaryLine>)
    ensures
        final(out)@ == old(out)@ + ser_tree(tree_view(*t)),
    decreases *t,
{
    serialize_ext_row(out, t.depth, &t.value);
    let ghost fv = forest_view(t.sub_forest@);
    proof {
        lemma_forest_view(t.sub_forest@);
    }
    let mut i: usize = 0;
    while i < t.sub_forest.len()
        invariant
            0 <= i <= t.sub_forest@.len(),
            fv.len() == t.sub_forest@.len(),
            fv == forest_view(t.sub_forest@),
            forall|k: int| 0 <= k < fv.len() ==> fv[k] == tree_view(t.sub_forest@[k]),
            old(out)@ + ser_tree(tree_view(*t)) =~= out@ + ser_forest_from(fv, i as int),
        decreases t.sub_forest@.len() - i,
    {
        proof {
            assert(ser_forest_from(fv, i as int) == ser_tree(fv[i as int]) + ser_forest_from(
                fv,
                i + 1,
            ));
            assert(fv[i as int] == tree_view(t.sub_forest@[i as int]));
        }
        let ghost prev = out@;
        serialize_tree(out, &t.sub_forest[i]);
        proof {
            assert(prev + (ser_tree(fv[i as int]) + ser_forest_from(fv, i + 1)) =~= (prev
                + ser_tree(fv[i as int])) + ser_forest_from(fv, i + 1));
        }
        i = i + 1;
    }
    proof {
        assert(ser_forest_from(fv, i as int) =~= Seq::<u8>::empty());
        assert(out@ + Seq::<u8>::empty() =~= out@);
    }
}

/// Appends the canonical extended summary: each root in order.
#[verifier::loop_isolation(false)]
pub fn serialize_forest(out: &mut Vec<u8>, f: &ExtendedSummary)
    ensures
        final(out)@ == old(out)@ + ser_forest_from(f@, 0),
{
    let ghost fv = f@;
    proof {
        lemma_forest_view(f.0@);
    }
    let mut i: usize = 0;
    while i < f.0.len()
        invariant
            0 <= i <= f.0@.len(),
            fv.len() == f.0@.len(),
            fv == forest_view(f.0@),
            forall|k: int| 0 <= k < fv.len() ==> fv[k] == tree_view(f.0@[k]),
            old(out)@ + ser_forest_from(fv, 0) =~= out@ + ser_forest_from(fv, i as int),
        decreases f.0@.len() - i,
    {
        proof {
            assert(ser_forest_from(fv, i as int) == ser_tree(fv[i as int]) + ser_forest_from(
                fv,
                i + 1,
            ));
            assert(fv[i as int] == tree_view(f.0@[i as int]));
        }
        let ghost prev = out@;
        serialize_tree(out, &f.0[i]);
        proof {
            assert(prev + (ser_tree(fv[i as int]) + ser_forest_from(fv, i + 1)) =~= (prev
                + ser_tree(fv[i as int])) + ser_forest_from(fv, i + 1));
        }
        i = i + 1;
    }
    proof {
        assert(ser_forest_from(fv, i as int) =~= Seq::<u8>::empty());
        assert(out@ + Seq::<u8>::empty() =~= out@);
    }
}

/// The canonical text of a whole report. For any report the parser could
/// have produced, parsing this text gives the report back, every field
/// equal.
pub fn serialize_prof(prof: &GHCProf) -> (out: Vec<u8>)
    ensures
        out@ == ser_prof(prof@),
        crate::parser::roundtrip::wf_prof(prof@) ==> crate::parser::prof::spec_parse_prof_file(
            out@,
        ) == Some(prof@),
{
    proof {
        if crate::parser::roundtrip::wf_prof(prof@) {
            crate::parser::roundtrip::lemma_canonical_roundtrip(prof@);
        }
    }
    let mut out: Vec<u8> = Vec::new();
    serialize_header(&mut out, &prof.header);
    out.push(10);
    out.push(10);
    out.push(10);
    serialize_summary(&mut out, &prof.summary);
    out.push(10);
    out.push(10);
    out.push(10);
    out.push(10);
    serialize_forest(&mut out, &prof.extended_summary);
    proof {
        assert(out@ =~= ser_prof(prof@));
    }
    out
}

} // verus!

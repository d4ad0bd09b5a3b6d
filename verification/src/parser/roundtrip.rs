//! Parsing canonical text gives the report back.
//!
//! The lemmas here climb the grammar: numbers, lines, rows, sections, the
//! whole report. Together they show that writing a well-formed report with
//! the canonical writer and parsing the text again yields the same report,
//! field for field.
use vstd::prelude::*;
use crate::parser::lex::{
    digit_start, is_break_byte, is_digit_byte, is_numlike_byte, is_space_byte, lemma_scan_while,
    lemma_scan_while_is, line_text_end, numlike_end, paren_start, scan_while, space_end,
    spec_line_ending, spec_text_line, token_end, ParseError,
};
use crate::parser::num::{
    all_digits, dot_count, fold_digits, lemma_dot_count_concat, lemma_dot_count_nonneg,
    lemma_fold_concat, lemma_remove_dots_concat, lemma_singletons, remove_dots, scale_of,
    spec_parse_decimal, spec_parse_u16, spec_parse_u32, spec_parse_u64, spec_parse_u8,
    strip_commas, Decimal,
};
use crate::parser::ser::{
    digits_of, lemma_digits_of_len, repeated, ser_decimal, ser_ext_row, ser_header,
    ser_summary_from, ser_summary_row, ser_total_alloc, ser_total_time,
};
use crate::parser::header::{spec_parse_header, spec_total_alloc, spec_total_time, HeaderV,
    TotalAlloc, TotalTime};
use crate::parser::summary::{spec_parse_summary_line, spec_parse_summary, SummaryLineV};
use crate::parser::tree::{clamp_pos, spec_build_all, spec_build_forest, spec_build_node,
    spec_lex_rows, spec_parse_ext_row, spec_parse_extended_summary, DepthRowV,
    ExtendedSummaryLineV, RoseTreeV};
use crate::parser::prof::{spec_parse_prof, GHCProfV};
use crate::parser::ser::{ser_forest_from, ser_prof};

verus! {

/// A comma-free string is unchanged by comma stripping.
pub proof fn lemma_strip_id(t: Seq<u8>)
    requires
        forall|i: int| 0 <= i < t.len() ==> t[i] != 44,
    ensures
        strip_commas(t) == t,
    decreases t.len(),
{
    if t.len() > 0 {
        assert(forall|i: int| 0 <= i < t.len() - 1 ==> t.drop_last()[i] == t[i]);
        lemma_strip_id(t.drop_last());
        assert(t.drop_last().push(t.last()) =~= t);
    }
}

/// A dot-free string is unchanged by dot removal.
pub proof fn lemma_remove_dots_id(t: Seq<u8>)
    requires
        forall|i: int| 0 <= i < t.len() ==> t[i] != 46,
    ensures
        remove_dots(t) == t,
    decreases t.len(),
{
    if t.len() > 0 {
        assert(forall|i: int| 0 <= i < t.len() - 1 ==> t.drop_last()[i] == t[i]);
        lemma_remove_dots_id(t.drop_last());
        assert(t.drop_last().push(t.last()) =~= t);
    }
}

/// A run of zero digits folds to zero.
pub proof fn lemma_fold_zeros(k: nat)
    ensures
        fold_digits(repeated(k, 48)) == 0,
    decreases k,
{
    if k > 0 {
        assert(repeated(k, 48).drop_last() =~= repeated((k - 1) as nat, 48));
        lemma_fold_zeros((k - 1) as nat);
        assert(repeated(k, 48).last() == 48);
    }
}

/// After a dot, `scale_of` counts exactly the digits that follow it.
pub proof fn lemma_scale_of_after_dot(a: Seq<u8>, b: Seq<u8>)
    requires
        forall|i: int| 0 <= i < b.len() ==> b[i] != 46,
    ensures
        scale_of(a + seq![46u8] + b) == b.len(),
    decreases b.len(),
{
    let t = a + seq![46u8] + b;
    if b.len() == 0 {
        assert(t =~= a + seq![46u8]);
        assert(t.last() == 46);
    } else {
        assert(forall|i: int| 0 <= i < b.len() - 1 ==> b.drop_last()[i] == b[i]);
        lemma_scale_of_after_dot(a, b.drop_last());
        assert(t.drop_last() =~= a + seq![46u8] + b.drop_last());
        assert(t.last() == b.last());
        assert(t.last() != 46);
        lemma_dot_count_concat(a + seq![46u8], b.drop_last());
        lemma_dot_count_concat(a, seq![46u8]);
        lemma_singletons(46u8);
        lemma_dot_count_nonneg(a);
        lemma_dot_count_nonneg(b.drop_last());
        assert(dot_count(t.drop_last()) > 0);
    }
}

/// The shape of a canonically written decimal: non-empty, numeric bytes
/// only, a digit first, at most one dot, and its parts give back the
/// mantissa and the scale.
pub proof fn lemma_ser_decimal_shape(d: Decimal)
    ensures
        ser_decimal(d).len() >= 1,
        is_digit_byte(ser_decimal(d)[0]),
        forall|i: int| 0 <= i < ser_decimal(d).len() ==> is_numlike_byte(ser_decimal(d)[i]),
        strip_commas(ser_decimal(d)) == ser_decimal(d),
        dot_count(ser_decimal(d)) == (if d.scale == 0 {
            0int
        } else {
            1int
        }),
        all_digits(remove_dots(ser_decimal(d))),
        remove_dots(ser_decimal(d)).len() >= 1,
        fold_digits(remove_dots(ser_decimal(d))) == d.mantissa,
        scale_of(ser_decimal(d)) == d.scale,
{
    let ds = digits_of(d.mantissa as nat);
    lemma_digits_of_len(d.mantissa as nat);
    if d.scale == 0 {
        lemma_strip_id(ds);
        lemma_remove_dots_id(ds);
        lemma_dot_count_nonneg(ds);
        let t = ds;
        assert(scale_of(t) == 0) by {
            lemma_dot_count_nonneg(t.drop_last());
            assert(forall|i: int| 0 <= i < t.len() - 1 ==> t.drop_last()[i] == t[i]);
            assert(t.last() != 46);
        }
    } else {
        let padded = (if ds.len() > d.scale {
            ds
        } else {
            repeated((d.scale + 1 - ds.len()) as nat, 48) + ds
        });
        assert(all_digits(padded)) by {
            if ds.len() <= d.scale {
                let z = repeated((d.scale + 1 - ds.len()) as nat, 48);
                assert(forall|i: int| 0 <= i < z.len() ==> padded[i] == 48);
                assert(forall|i: int| 0 <= i < ds.len() ==> padded[z.len() + i] == ds[i]);
            }
        }
        assert(fold_digits(padded) == d.mantissa) by {
            if ds.len() <= d.scale {
                let z = repeated((d.scale + 1 - ds.len()) as nat, 48);
                lemma_fold_concat(z, ds);
                lemma_fold_zeros(z.len());
            }
        }
        assert(padded.len() > d.scale);
        let cut = padded.len() - d.scale;
        let a = padded.take(cut as int);
        let b = padded.skip(cut as int);
        let t = a + seq![46u8] + b;
        assert(ser_decimal(d) == t);
        assert(a.len() == cut && b.len() == d.scale);
        assert(forall|i: int| 0 <= i < a.len() ==> a[i] == padded[i]);
        assert(forall|i: int| 0 <= i < b.len() ==> b[i] == padded[cut + i]);
        assert(a + b =~= padded);
        assert(t.len() >= 1);
        assert(t[0] == padded[0]);
        assert(forall|i: int| 0 <= i < t.len() ==> is_numlike_byte(t[i])) by {
            assert(forall|i: int| 0 <= i < a.len() ==> t[i] == a[i]);
            assert(t[a.len() as int] == 46);
            assert(forall|i: int| 0 <= i < b.len() ==> t[a.len() + 1 + i] == b[i]);
        }
        lemma_strip_id(t);
        lemma_dot_count_concat(a + seq![46u8], b);
        lemma_dot_count_concat(a, seq![46u8]);
        lemma_singletons(46u8);
        lemma_dot_count_nonneg(a);
        lemma_dot_count_nonneg(b);
        assert(dot_count(t) == 1);
        lemma_remove_dots_concat(a + seq![46u8], b);
        lemma_remove_dots_concat(a, seq![46u8]);
        lemma_remove_dots_id(a);
        lemma_remove_dots_id(b);
        assert(remove_dots(t) =~= padded);
        lemma_scale_of_after_dot(a, b);
    }
}

/// The digit string of an unsigned number parses back to it wherever it
/// stands, provided no numeric byte follows it.
pub proof fn lemma_parse_u64_at(s: Seq<u8>, pos: int, n: u64)
    requires
        0 <= pos,
        pos + digits_of(n as nat).len() <= s.len(),
        s.subrange(pos, pos + digits_of(n as nat).len()) == digits_of(n as nat),
        pos + digits_of(n as nat).len() == s.len() || !is_numlike_byte(
            s[pos + digits_of(n as nat).len()],
        ),
    ensures
        spec_parse_u64(s, pos) == Ok::<_, ParseError>((n, pos + digits_of(n as nat).len())),
{
    let ds = digits_of(n as nat);
    let e = pos + ds.len();
    lemma_digits_of_len(n as nat);
    assert(forall|k: int| pos <= k < e ==> s[k] == ds[k - pos]);
    lemma_scan_while_is(s, pos, e, |b: u8| is_numlike_byte(b));
    assert(numlike_end(s, pos) == e);
    assert(s.subrange(pos, e) == ds);
    lemma_strip_id(ds);
}

/// A canonically written decimal parses back to itself wherever it stands,
/// provided no numeric byte follows it.
pub proof fn lemma_parse_decimal_at(s: Seq<u8>, pos: int, d: Decimal)
    requires
        0 <= pos,
        pos + ser_decimal(d).len() <= s.len(),
        s.subrange(pos, pos + ser_decimal(d).len()) == ser_decimal(d),
        pos + ser_decimal(d).len() == s.len() || !is_numlike_byte(s[pos + ser_decimal(d).len()]),
    ensures
        spec_parse_decimal(s, pos) == Ok::<_, ParseError>((d, pos + ser_decimal(d).len())),
{
    let t = ser_decimal(d);
    let e = pos + t.len();
    lemma_ser_decimal_shape(d);
    assert(forall|k: int| pos <= k < e ==> s[k] == t[k - pos]);
    lemma_scan_while_is(s, pos, e, |b: u8| is_numlike_byte(b));
    assert(numlike_end(s, pos) == e);
    assert(s.subrange(pos, e) == t);
}

/// As [`lemma_parse_u64_at`], for the 32-bit reading.
pub proof fn lemma_parse_u32_at(s: Seq<u8>, pos: int, n: u32)
    requires
        0 <= pos,
        pos + digits_of(n as nat).len() <= s.len(),
        s.subrange(pos, pos + digits_of(n as nat).len()) == digits_of(n as nat),
        pos + digits_of(n as nat).len() == s.len() || !is_numlike_byte(
            s[pos + digits_of(n as nat).len()],
        ),
    ensures
        spec_parse_u32(s, pos) == Ok::<_, ParseError>((n, pos + digits_of(n as nat).len())),
{
    lemma_parse_u64_at(s, pos, n as u64);
}

/// As [`lemma_parse_u64_at`], for the 16-bit reading.
pub proof fn lemma_parse_u16_at(s: Seq<u8>, pos: int, n: u16)
    requires
        0 <= pos,
        pos + digits_of(n as nat).len() <= s.len(),
        s.subrange(pos, pos + digits_of(n as nat).len()) == digits_of(n as nat),
        pos + digits_of(n as nat).len() == s.len() || !is_numlike_byte(
            s[pos + digits_of(n as nat).len()],
        ),
    ensures
        spec_parse_u16(s, pos) == Ok::<_, ParseError>((n, pos + digits_of(n as nat).len())),
{
    lemma_parse_u64_at(s, pos, n as u64);
}

/// As [`lemma_parse_u64_at`], for the 8-bit reading.
pub proof fn lemma_parse_u8_at(s: Seq<u8>, pos: int, n: u8)
    requires
        0 <= pos,
        pos + digits_of(n as nat).len() <= s.len(),
        s.subrange(pos, pos + digits_of(n as nat).len()) == digits_of(n as nat),
        pos + digits_of(n as nat).len() == s.len() || !is_numlike_byte(
            s[pos + digits_of(n as nat).len()],
        ),
    ensures
        spec_parse_u8(s, pos) == Ok::<_, ParseError>((n, pos + digits_of(n as nat).len())),
{
    lemma_parse_u64_at(s, pos, n as u64);
}

/// Splits knowledge of a two-part segment into its parts.
pub proof fn lemma_concat_segment<T>(s: Seq<T>, pos: int, a: Seq<T>, b: Seq<T>)
    requires
        0 <= pos,
        pos + a.len() + b.len() <= s.len(),
        s.subrange(pos, pos + a.len() + b.len()) == a + b,
    ensures
        s.subrange(pos, pos + a.len()) == a,
        s.subrange(pos + a.len(), pos + a.len() + b.len()) == b,
{
    let whole = s.subrange(pos, pos + a.len() + b.len());
    assert(forall|k: int| 0 <= k < whole.len() ==> whole[k] == #[trigger] s[pos + k]);
    assert(s.subrange(pos, pos + a.len()) =~= a);
    assert forall|k: int| 0 <= k < b.len() implies s.subrange(
        pos + a.len(),
        pos + a.len() + b.len(),
    )[k] == b[k] by {
        assert(whole[a.len() + k] == s[pos + (a.len() + k)]);
        assert((a + b)[a.len() + k] == b[k]);
    }
    assert(s.subrange(pos + a.len(), pos + a.len() + b.len()) =~= b);
}

/// Text fit for a trimmed line: free of line breaks and not opening with
/// horizontal whitespace (which the parser would strip).
pub open spec fn wf_text(t: Seq<u8>) -> bool {
    &&& forall|i: int| 0 <= i < t.len() ==> !is_break_byte(t[i])
    &&& (t.len() > 0 ==> !is_space_byte(t[0]))
}

/// A whitespace-delimited token: free of spaces and tabs.
pub open spec fn wf_token(t: Seq<u8>) -> bool {
    forall|i: int| 0 <= i < t.len() ==> !is_space_byte(t[i])
}

/// A flat-summary cost-centre token: a token that does not open with a line
/// terminator, which would read as the section's end.
pub open spec fn wf_flat_cc(t: Seq<u8>) -> bool {
    &&& wf_token(t)
    &&& (t.len() > 0 ==> t[0] != 10)
    &&& (t.len() > 1 ==> !(t[0] == 13 && t[1] == 10))
}

/// A well-formed flat-summary row: tokens without whitespace, a non-empty
/// module, and a cost centre that cannot be mistaken for the terminator.
pub open spec fn wf_summary_row(l: SummaryLineV) -> bool {
    &&& wf_flat_cc(l.cost_centre)
    &&& wf_token(l.module)
    &&& l.module.len() > 0
}

/// A well-formed extended-summary row: non-empty whitespace-free tokens.
pub open spec fn wf_ext_line(l: ExtendedSummaryLineV) -> bool {
    &&& wf_token(l.cost_centre)
    &&& l.cost_centre.len() > 0
    &&& wf_token(l.module)
    &&& l.module.len() > 0
}

/// Knowledge of a segment, element by element.
pub proof fn lemma_segment_bytes<T>(s: Seq<T>, pos: int, w: Seq<T>)
    requires
        0 <= pos,
        pos + w.len() <= s.len(),
        s.subrange(pos, pos + w.len()) == w,
    ensures
        forall|k: int| 0 <= k < w.len() ==> s[pos + k] == #[trigger] w[k],
        forall|k: int| pos <= k < pos + w.len() ==> #[trigger] s[k] == w[k - pos],
{
    assert(forall|k: int|
        0 <= k < w.len() ==> #[trigger] w[k] == s.subrange(pos, pos + w.len())[k]);
    assert(forall|k: int|
        pos <= k < pos + w.len() ==> #[trigger] s[k] == s.subrange(pos, pos + w.len())[k - pos]);
}

/// A trimmed line and its terminator parse back to the line's text wherever
/// they stand.
pub proof fn lemma_text_line_at(s: Seq<u8>, pos: int, t: Seq<u8>)
    requires
        wf_text(t),
        0 <= pos,
        pos + t.len() + 1 <= s.len(),
        s.subrange(pos, pos + t.len() + 1) == t + seq![10u8],
    ensures
        spec_text_line(s, pos) == Ok::<_, ParseError>((t, pos + t.len() + 1)),
{
    lemma_concat_segment(s, pos, t, seq![10u8]);
    lemma_segment_bytes(s, pos, t);
    lemma_segment_bytes(s, pos + t.len(), seq![10u8]);
    assert(s[pos + t.len()] == 10);
    lemma_scan_while_is(s, pos, pos, |b: u8| is_space_byte(b));
    lemma_scan_while_is(s, pos, pos + t.len(), |b: u8| !is_break_byte(b));
    assert(spec_line_ending(s, pos + t.len()) == Some(pos + t.len() + 1));
}

/// The canonical total-time line parses back to its four fields wherever it
/// stands.
#[verifier::rlimit(80)]
pub proof fn lemma_total_time_at(s: Seq<u8>, pos: int, tt: TotalTime)
    requires
        0 <= pos,
        pos + ser_total_time(tt).len() <= s.len(),
        s.subrange(pos, pos + ser_total_time(tt).len()) == ser_total_time(tt),
    ensures
        spec_total_time(s, pos) == Ok::<_, ParseError>((tt, pos + ser_total_time(tt).len())),
{
    let d = ser_decimal(tt.time);
    let dt = digits_of(tt.ticks as nat);
    let df = digits_of(tt.freq as nat);
    let dp = digits_of(tt.procs as nat);
    lemma_ser_decimal_shape(tt.time);
    lemma_digits_of_len(tt.ticks as nat);
    lemma_digits_of_len(tt.freq as nat);
    lemma_digits_of_len(tt.procs as nat);
    let r1 = d + (seq![40u8] + (dt + (seq![32u8] + (df + (seq![32u8] + (dp + seq![10u8]))))));
    let r2 = seq![40u8] + (dt + (seq![32u8] + (df + (seq![32u8] + (dp + seq![10u8])))));
    let r3 = dt + (seq![32u8] + (df + (seq![32u8] + (dp + seq![10u8]))));
    let r4 = seq![32u8] + (df + (seq![32u8] + (dp + seq![10u8])));
    let r5 = df + (seq![32u8] + (dp + seq![10u8]));
    let r6 = seq![32u8] + (dp + seq![10u8]);
    let r7 = dp + seq![10u8];
    lemma_concat_segment(s, pos, seq![32u8], r1);
    let p1 = pos + 1;
    lemma_concat_segment(s, p1, d, r2);
    let p2 = p1 + d.len();
    lemma_concat_segment(s, p2, seq![40u8], r3);
    let p3 = p2 + 1;
    lemma_concat_segment(s, p3, dt, r4);
    let p4 = p3 + dt.len();
    lemma_concat_segment(s, p4, seq![32u8], r5);
    let p5 = p4 + 1;
    lemma_concat_segment(s, p5, df, r6);
    let p6 = p5 + df.len();
    lemma_concat_segment(s, p6, seq![32u8], r7);
    let p7 = p6 + 1;
    lemma_concat_segment(s, p7, dp, seq![10u8]);
    let p8 = p7 + dp.len();
    lemma_segment_bytes(s, pos, seq![32u8]);
    lemma_segment_bytes(s, p1, d);
    lemma_segment_bytes(s, p2, seq![40u8]);
    lemma_segment_bytes(s, p3, dt);
    lemma_segment_bytes(s, p4, seq![32u8]);
    lemma_segment_bytes(s, p5, df);
    lemma_segment_bytes(s, p6, seq![32u8]);
    lemma_segment_bytes(s, p7, dp);
    lemma_segment_bytes(s, p8, seq![10u8]);
    assert(s[pos] == 32);
    assert(s[p1] == d[0]);
    assert(is_digit_byte(s[p1]));
    lemma_scan_while_is(s, pos, p1, |b: u8| is_space_byte(b));
    lemma_scan_while_is(s, p1, p1, |b: u8| !is_digit_byte(b));
    assert(s[p2] == 40);
    lemma_parse_decimal_at(s, p1, tt.time);
    lemma_scan_while_is(s, p2, p2, |b: u8| b != 40);
    assert(paren_start(s, p2) == p2);
    assert(s[p3] == dt[0]);
    assert(s[p4] == 32);
    lemma_parse_u32_at(s, p3, tt.ticks);
    assert(s[p5] == df[0] && is_digit_byte(s[p5]));
    lemma_scan_while_is(s, p4, p5, |b: u8| !is_digit_byte(b));
    assert(s[p6] == 32);
    lemma_parse_u16_at(s, p5, tt.freq);
    assert(s[p7] == dp[0] && is_digit_byte(s[p7]));
    lemma_scan_while_is(s, p6, p7, |b: u8| !is_digit_byte(b));
    assert(s[p8] == 10);
    lemma_parse_u8_at(s, p7, tt.procs);
    lemma_scan_while_is(s, p8, p8, |b: u8| !is_break_byte(b));
    assert(spec_line_ending(s, p8) == Some(p8 + 1));
    assert(p8 + 1 == pos + ser_total_time(tt).len());
}

/// The canonical total-alloc line parses back to its byte count wherever it
/// stands.
pub proof fn lemma_total_alloc_at(s: Seq<u8>, pos: int, ta: TotalAlloc)
    requires
        0 <= pos,
        pos + ser_total_alloc(ta).len() <= s.len(),
        s.subrange(pos, pos + ser_total_alloc(ta).len()) == ser_total_alloc(ta),
    ensures
        spec_total_alloc(s, pos) == Ok::<_, ParseError>((ta, pos + ser_total_alloc(ta).len())),
{
    let db = digits_of(ta.bytes as nat);
    lemma_digits_of_len(ta.bytes as nat);
    let r1 = db + seq![10u8];
    lemma_concat_segment(s, pos, seq![32u8], r1);
    let p1 = pos + 1;
    lemma_concat_segment(s, p1, db, seq![10u8]);
    let p2 = p1 + db.len();
    lemma_segment_bytes(s, pos, seq![32u8]);
    lemma_segment_bytes(s, p1, db);
    lemma_segment_bytes(s, p2, seq![10u8]);
    assert(s[pos] == 32);
    assert(s[p1] == db[0] && is_digit_byte(s[p1]));
    lemma_scan_while_is(s, pos, p1, |b: u8| is_space_byte(b));
    lemma_scan_while_is(s, p1, p1, |b: u8| !is_digit_byte(b));
    assert(s[p2] == 10);
    lemma_parse_u64_at(s, p1, ta.bytes);
    lemma_scan_while_is(s, p2, p2, |b: u8| !is_break_byte(b));
    assert(spec_line_ending(s, p2) == Some(p2 + 1));
}

/// The canonical header block parses back to its header wherever it stands.
pub proof fn lemma_header_at(s: Seq<u8>, pos: int, h: HeaderV)
    requires
        wf_text(h.title),
        wf_text(h.program),
        0 <= pos,
        pos + ser_header(h).len() <= s.len(),
        s.subrange(pos, pos + ser_header(h).len()) == ser_header(h),
    ensures
        spec_parse_header(s, pos) == Ok::<_, ParseError>((h, pos + ser_header(h).len())),
{
    let tl = h.title + seq![10u8];
    let r1 = seq![10u8] + ((h.program + seq![10u8]) + (seq![10u8] + (ser_total_time(h.total_time)
        + ser_total_alloc(h.total_alloc))));
    let r2 = (h.program + seq![10u8]) + (seq![10u8] + (ser_total_time(h.total_time)
        + ser_total_alloc(h.total_alloc)));
    let r3 = seq![10u8] + (ser_total_time(h.total_time) + ser_total_alloc(h.total_alloc));
    let r4 = ser_total_time(h.total_time) + ser_total_alloc(h.total_alloc);
    lemma_concat_segment(s, pos, tl, r1);
    let p1 = pos + tl.len();
    lemma_concat_segment(s, p1, seq![10u8], r2);
    let p2 = p1 + 1;
    lemma_concat_segment(s, p2, h.program + seq![10u8], r3);
    let p3 = p2 + h.program.len() + 1;
    lemma_concat_segment(s, p3, seq![10u8], r4);
    let p4 = p3 + 1;
    lemma_concat_segment(s, p4, ser_total_time(h.total_time), ser_total_alloc(h.total_alloc));
    let p5 = p4 + ser_total_time(h.total_time).len();
    lemma_text_line_at(s, pos, h.title);
    lemma_segment_bytes(s, p1, seq![10u8]);
    assert(s[p1] == 10);
    assert(spec_line_ending(s, p1) == Some(p2));
    lemma_text_line_at(s, p2, h.program);
    lemma_segment_bytes(s, p3, seq![10u8]);
    assert(s[p3] == 10);
    assert(spec_line_ending(s, p3) == Some(p4));
    lemma_total_time_at(s, p4, h.total_time);
    lemma_total_alloc_at(s, p5, h.total_alloc);
}

/// One canonical flat-summary row parses back to itself wherever it stands.
#[verifier::rlimit(80)]
pub proof fn lemma_summary_row_at(s: Seq<u8>, pos: int, l: SummaryLineV)
    requires
        wf_summary_row(l),
        0 <= pos,
        pos + ser_summary_row(l).len() <= s.len(),
        s.subrange(pos, pos + ser_summary_row(l).len()) == ser_summary_row(l),
    ensures
        spec_parse_summary_line(s, pos) == Ok::<_, ParseError>(
            (l, pos + ser_summary_row(l).len()),
        ),
{
    let d1 = ser_decimal(l.time_perc);
    let d2 = ser_decimal(l.alloc_perc);
    lemma_ser_decimal_shape(l.time_perc);
    lemma_ser_decimal_shape(l.alloc_perc);
    let r1 = seq![32u8] + (l.module + (seq![32u8] + (d1 + (seq![32u8] + (d2 + seq![10u8])))));
    let r2 = l.module + (seq![32u8] + (d1 + (seq![32u8] + (d2 + seq![10u8]))));
    let r3 = seq![32u8] + (d1 + (seq![32u8] + (d2 + seq![10u8])));
    let r4 = d1 + (seq![32u8] + (d2 + seq![10u8]));
    let r5 = seq![32u8] + (d2 + seq![10u8]);
    let r6 = d2 + seq![10u8];
    lemma_concat_segment(s, pos, l.cost_centre, r1);
    let a = pos + l.cost_centre.len();
    lemma_concat_segment(s, a, seq![32u8], r2);
    let b = a + 1;
    lemma_concat_segment(s, b, l.module, r3);
    let c = b + l.module.len();
    lemma_concat_segment(s, c, seq![32u8], r4);
    let d = c + 1;
    lemma_concat_segment(s, d, d1, r5);
    let e1 = d + d1.len();
    lemma_concat_segment(s, e1, seq![32u8], r6);
    let f = e1 + 1;
    lemma_concat_segment(s, f, d2, seq![10u8]);
    let g = f + d2.len();
    lemma_segment_bytes(s, pos, l.cost_centre);
    lemma_segment_bytes(s, a, seq![32u8]);
    lemma_segment_bytes(s, b, l.module);
    lemma_segment_bytes(s, c, seq![32u8]);
    lemma_segment_bytes(s, d, d1);
    lemma_segment_bytes(s, e1, seq![32u8]);
    lemma_segment_bytes(s, f, d2);
    lemma_segment_bytes(s, g, seq![10u8]);
    assert(s[a] == 32);
    lemma_scan_while_is(s, pos, a, |x: u8| !is_space_byte(x));
    assert(token_end(s, pos) == a);
    assert(a < s.len());
    assert(s[b] == l.module[0] && !is_space_byte(s[b]));
    lemma_scan_while_is(s, a, b, |x: u8| is_space_byte(x));
    assert(s[c] == 32);
    lemma_scan_while_is(s, b, c, |x: u8| !is_space_byte(x));
    assert(s[d] == d1[0] && is_digit_byte(s[d]) && !is_space_byte(s[d]));
    lemma_scan_while_is(s, c, d, |x: u8| is_space_byte(x));
    assert(s[e1] == 32);
    lemma_parse_decimal_at(s, d, l.time_perc);
    assert(s[f] == d2[0] && !is_space_byte(s[f]));
    lemma_scan_while_is(s, e1, f, |x: u8| is_space_byte(x));
    assert(s[g] == 10);
    lemma_parse_decimal_at(s, f, l.alloc_perc);
    assert(spec_line_ending(s, g) == Some(g + 1));
    assert(s.subrange(pos, a) == l.cost_centre);
    assert(s.subrange(b, c) == l.module);
}

/// Where a canonical row stands, the section does not read its start as
/// the terminating blank line.
pub proof fn lemma_row_start_not_blank(s: Seq<u8>, pos: int, l: SummaryLineV)
    requires
        wf_summary_row(l),
        0 <= pos,
        pos + ser_summary_row(l).len() <= s.len(),
        s.subrange(pos, pos + ser_summary_row(l).len()) == ser_summary_row(l),
    ensures
        spec_line_ending(s, pos) is None,
{
    let cc = l.cost_centre;
    let r1 = seq![32u8] + (l.module + (seq![32u8] + (ser_decimal(l.time_perc) + (seq![32u8] + (
    ser_decimal(l.alloc_perc) + seq![10u8])))));
    lemma_concat_segment(s, pos, cc, r1);
    lemma_concat_segment(
        s,
        pos + cc.len(),
        seq![32u8],
        l.module + (seq![32u8] + (ser_decimal(l.time_perc) + (seq![32u8] + (ser_decimal(
            l.alloc_perc,
        ) + seq![10u8])))),
    );
    lemma_segment_bytes(s, pos, cc);
    lemma_segment_bytes(s, pos + cc.len(), seq![32u8]);
    if cc.len() == 0 {
        assert(s[pos] == 32);
    } else {
        assert(s[pos] == cc[0]);
        assert(s[pos] != 10);
        if s[pos] == 13 {
            if cc.len() > 1 {
                assert(s[pos + 1] == cc[1]);
                assert(s[pos + 1] != 10);
            } else {
                assert(s[pos + 1] == 32);
            }
        }
    }
}

/// The canonical flat summary from row `i` on parses back to the remaining
/// rows wherever it stands.
pub proof fn lemma_summary_section_at(s: Seq<u8>, pos: int, rows: Seq<SummaryLineV>, i: int)
    requires
        0 <= i <= rows.len(),
        forall|j: int| 0 <= j < rows.len() ==> wf_summary_row(#[trigger] rows[j]),
        0 <= pos,
        pos + ser_summary_from(rows, i).len() <= s.len(),
        s.subrange(pos, pos + ser_summary_from(rows, i).len()) == ser_summary_from(rows, i),
    ensures
        spec_parse_summary(s, pos) == Ok::<_, ParseError>(
            (rows.skip(i), pos + ser_summary_from(rows, i).len()),
        ),
    decreases rows.len() - i,
{
    if i == rows.len() {
        lemma_segment_bytes(s, pos, seq![10u8]);
        assert(s[pos] == 10);
        assert(spec_line_ending(s, pos) == Some(pos + 1));
        assert(rows.skip(i) =~= Seq::<SummaryLineV>::empty());
    } else {
        let row = ser_summary_row(rows[i]);
        let rest = ser_summary_from(rows, i + 1);
        lemma_concat_segment(s, pos, row, rest);
        lemma_row_start_not_blank(s, pos, rows[i]);
        lemma_summary_row_at(s, pos, rows[i]);
        let p2 = pos + row.len();
        lemma_summary_section_at(s, p2, rows, i + 1);
        assert(seq![rows[i]] + rows.skip(i + 1) =~= rows.skip(i));
    }
}

/// The canonical separator block parses wherever it stands.
pub proof fn lemma_sep_at(s: Seq<u8>, pos: int)
    requires
        0 <= pos,
        pos + 4 <= s.len(),
        s.subrange(pos, pos + 4) == seq![10u8, 10u8, 10u8, 10u8],
    ensures
        crate::parser::summary::spec_summaries_sep(s, pos) == Ok::<_, ParseError>(pos + 4),
{
    lemma_segment_bytes(s, pos, seq![10u8, 10u8, 10u8, 10u8]);
    assert(s[pos] == 10 && s[pos + 1] == 10 && s[pos + 2] == 10 && s[pos + 3] == 10);
    assert(spec_line_ending(s, pos) == Some(pos + 1));
    lemma_scan_while_is(s, pos + 1, pos + 1, |b: u8| is_space_byte(b));
    lemma_scan_while_is(s, pos + 1, pos + 1, |b: u8| !is_break_byte(b));
    assert(spec_line_ending(s, pos + 1) == Some(pos + 2));
    assert(spec_text_line(s, pos + 1) == Ok::<_, ParseError>(
        (s.subrange(pos + 1, pos + 1), pos + 2),
    ));
    lemma_scan_while_is(s, pos + 2, pos + 2, |b: u8| is_space_byte(b));
    lemma_scan_while_is(s, pos + 2, pos + 2, |b: u8| !is_break_byte(b));
    assert(spec_line_ending(s, pos + 2) == Some(pos + 3));
    assert(spec_text_line(s, pos + 2) == Ok::<_, ParseError>(
        (s.subrange(pos + 2, pos + 2), pos + 3),
    ));
    assert(spec_line_ending(s, pos + 3) == Some(pos + 4));
}

/// The numeric tail of an extended-summary row: the sequence number, the
/// entry count and the four percentages, each after one space, closed by
/// the line terminator.
#[verifier::rlimit(100)]
pub proof fn lemma_ext_row_tail_at(s: Seq<u8>, c: int, l: ExtendedSummaryLineV)
    requires
        0 <= c,
        c + 1 + (digits_of(l.no as nat) + (seq![32u8] + (digits_of(l.entries as nat) + (
        seq![32u8] + (ser_decimal(l.individual_time_perc) + (seq![32u8] + (ser_decimal(
            l.individual_alloc_perc,
        ) + (seq![32u8] + (ser_decimal(l.inherited_time_perc) + (seq![32u8] + (ser_decimal(
            l.inherited_alloc_perc,
        ) + seq![10u8]))))))))))).len() <= s.len(),
        s.subrange(
            c,
            c + 1 + (digits_of(l.no as nat) + (seq![32u8] + (digits_of(l.entries as nat) + (
            seq![32u8] + (ser_decimal(l.individual_time_perc) + (seq![32u8] + (ser_decimal(
                l.individual_alloc_perc,
            ) + (seq![32u8] + (ser_decimal(l.inherited_time_perc) + (seq![32u8] + (ser_decimal(
                l.inherited_alloc_perc,
            ) + seq![10u8]))))))))))).len(),
        ) == seq![32u8] + (digits_of(l.no as nat) + (seq![32u8] + (digits_of(l.entries as nat) + (
        seq![32u8] + (ser_decimal(l.individual_time_perc) + (seq![32u8] + (ser_decimal(
            l.individual_alloc_perc,
        ) + (seq![32u8] + (ser_decimal(l.inherited_time_perc) + (seq![32u8] + (ser_decimal(
            l.inherited_alloc_perc,
        ) + seq![10u8]))))))))))),
    ensures
        ({
            let d = c + 1;
            let e1 = d + digits_of(l.no as nat).len();
            let f1 = e1 + 1;
            let e2 = f1 + digits_of(l.entries as nat).len();
            let g1 = e2 + 1;
            let e3 = g1 + ser_decimal(l.individual_time_perc).len();
            let g2 = e3 + 1;
            let e4 = g2 + ser_decimal(l.individual_alloc_perc).len();
            let g3 = e4 + 1;
            let e5 = g3 + ser_decimal(l.inherited_time_perc).len();
            let g4 = e5 + 1;
            let e6 = g4 + ser_decimal(l.inherited_alloc_perc).len();
            &&& space_end(s, c) == d
            &&& spec_parse_u32(s, d) == Ok::<_, ParseError>((l.no, e1))
            &&& space_end(s, e1) == f1
            &&& spec_parse_u32(s, f1) == Ok::<_, ParseError>((l.entries, e2))
            &&& space_end(s, e2) == g1
            &&& spec_parse_decimal(s, g1) == Ok::<_, ParseError>((l.individual_time_perc, e3))
            &&& space_end(s, e3) == g2
            &&& spec_parse_decimal(s, g2) == Ok::<_, ParseError>((l.individual_alloc_perc, e4))
            &&& space_end(s, e4) == g3
            &&& spec_parse_decimal(s, g3) == Ok::<_, ParseError>((l.inherited_time_perc, e5))
            &&& space_end(s, e5) == g4
            &&& spec_parse_decimal(s, g4) == Ok::<_, ParseError>((l.inherited_alloc_perc, e6))
            &&& spec_line_ending(s, e6) == Some(e6 + 1)
        }),
{
    let dn = digits_of(l.no as nat);
    let de = digits_of(l.entries as nat);
    let w1 = ser_decimal(l.individual_time_perc);
    let w2 = ser_decimal(l.individual_alloc_perc);
    let w3 = ser_decimal(l.inherited_time_perc);
    let w4 = ser_decimal(l.inherited_alloc_perc);
    lemma_digits_of_len(l.no as nat);
    lemma_digits_of_len(l.entries as nat);
    lemma_ser_decimal_shape(l.individual_time_perc);
    lemma_ser_decimal_shape(l.individual_alloc_perc);
    lemma_ser_decimal_shape(l.inherited_time_perc);
    lemma_ser_decimal_shape(l.inherited_alloc_perc);
    let rE = dn + (seq![32u8] + (de + (seq![32u8] + (w1 + (seq![32u8] + (w2 + (seq![32u8] + (w3
        + (seq![32u8] + (w4 + seq![10u8]))))))))));
    let rF = seq![32u8] + (de + (seq![32u8] + (w1 + (seq![32u8] + (w2 + (seq![32u8] + (w3 + (
    seq![32u8] + (w4 + seq![10u8])))))))));
    let rG = de + (seq![32u8] + (w1 + (seq![32u8] + (w2 + (seq![32u8] + (w3 + (seq![32u8] + (w4
        + seq![10u8]))))))));
    let rH = seq![32u8] + (w1 + (seq![32u8] + (w2 + (seq![32u8] + (w3 + (seq![32u8] + (w4
        + seq![10u8])))))));
    let rI = w1 + (seq![32u8] + (w2 + (seq![32u8] + (w3 + (seq![32u8] + (w4 + seq![10u8]))))));
    let rJ = seq![32u8] + (w2 + (seq![32u8] + (w3 + (seq![32u8] + (w4 + seq![10u8])))));
    let rK = w2 + (seq![32u8] + (w3 + (seq![32u8] + (w4 + seq![10u8]))));
    let rL = seq![32u8] + (w3 + (seq![32u8] + (w4 + seq![10u8])));
    let rM = w3 + (seq![32u8] + (w4 + seq![10u8]));
    let rN = seq![32u8] + (w4 + seq![10u8]);
    let rO = w4 + seq![10u8];
    lemma_concat_segment(s, c, seq![32u8], rE);
    let d = c + 1;
    lemma_concat_segment(s, d, dn, rF);
    let e1 = d + dn.len();
    lemma_concat_segment(s, e1, seq![32u8], rG);
    let f1 = e1 + 1;
    lemma_concat_segment(s, f1, de, rH);
    let e2 = f1 + de.len();
    lemma_concat_segment(s, e2, seq![32u8], rI);
    let g1 = e2 + 1;
    lemma_concat_segment(s, g1, w1, rJ);
    let e3 = g1 + w1.len();
    lemma_concat_segment(s, e3, seq![32u8], rK);
    let g2 = e3 + 1;
    lemma_concat_segment(s, g2, w2, rL);
    let e4 = g2 + w2.len();
    lemma_concat_segment(s, e4, seq![32u8], rM);
    let g3 = e4 + 1;
    lemma_concat_segment(s, g3, w3, rN);
    let e5 = g3 + w3.len();
    lemma_concat_segment(s, e5, seq![32u8], rO);
    let g4 = e5 + 1;
    lemma_concat_segment(s, g4, w4, seq![10u8]);
    let e6 = g4 + w4.len();
    lemma_segment_bytes(s, c, seq![32u8]);
    lemma_segment_bytes(s, d, dn);
    lemma_segment_bytes(s, e1, seq![32u8]);
    lemma_segment_bytes(s, f1, de);
    lemma_segment_bytes(s, e2, seq![32u8]);
    lemma_segment_bytes(s, g1, w1);
    lemma_segment_bytes(s, e3, seq![32u8]);
    lemma_segment_bytes(s, g2, w2);
    lemma_segment_bytes(s, e4, seq![32u8]);
    lemma_segment_bytes(s, g3, w3);
    lemma_segment_bytes(s, e5, seq![32u8]);
    lemma_segment_bytes(s, g4, w4);
    lemma_segment_bytes(s, e6, seq![10u8]);
    assert(s[c] == 32);
    assert(s[d] == dn[0] && !is_space_byte(s[d]));
    lemma_scan_while_is(s, c, d, |x: u8| is_space_byte(x));
    assert(s[e1] == 32);
    lemma_parse_u32_at(s, d, l.no);
    assert(s[f1] == de[0] && !is_space_byte(s[f1]));
    lemma_scan_while_is(s, e1, f1, |x: u8| is_space_byte(x));
    assert(s[e2] == 32);
    lemma_parse_u32_at(s, f1, l.entries);
    assert(s[g1] == w1[0] && !is_space_byte(s[g1]));
    lemma_scan_while_is(s, e2, g1, |x: u8| is_space_byte(x));
    assert(s[e3] == 32);
    lemma_parse_decimal_at(s, g1, l.individual_time_perc);
    assert(s[g2] == w2[0] && !is_space_byte(s[g2]));
    lemma_scan_while_is(s, e3, g2, |x: u8| is_space_byte(x));
    assert(s[e4] == 32);
    lemma_parse_decimal_at(s, g2, l.individual_alloc_perc);
    assert(s[g3] == w3[0] && !is_space_byte(s[g3]));
    lemma_scan_while_is(s, e4, g3, |x: u8| is_space_byte(x));
    assert(s[e5] == 32);
    lemma_parse_decimal_at(s, g3, l.inherited_time_perc);
    assert(s[g4] == w4[0] && !is_space_byte(s[g4]));
    lemma_scan_while_is(s, e5, g4, |x: u8| is_space_byte(x));
    assert(s[e6] == 10);
    lemma_parse_decimal_at(s, g4, l.inherited_alloc_perc);
    assert(spec_line_ending(s, e6) == Some(e6 + 1));
}

/// One canonical extended-summary row parses back to its depth and fields
/// wherever it stands.
#[verifier::rlimit(100)]
pub proof fn lemma_ext_row_at(s: Seq<u8>, pos: int, row: DepthRowV)
    requires
        wf_ext_line(row.line),
        0 <= pos,
        pos + ser_ext_row(row.depth, row.line).len() <= s.len(),
        s.subrange(pos, pos + ser_ext_row(row.depth, row.line).len()) == ser_ext_row(
            row.depth,
            row.line,
        ),
    ensures
        spec_parse_ext_row(s, pos) == Ok::<_, ParseError>(
            (row, pos + ser_ext_row(row.depth, row.line).len()),
        ),
{
    let l = row.line;
    let ind = repeated(row.depth, 32);
    let dn = digits_of(l.no as nat);
    let de = digits_of(l.entries as nat);
    let w1 = ser_decimal(l.individual_time_perc);
    let w2 = ser_decimal(l.individual_alloc_perc);
    let w3 = ser_decimal(l.inherited_time_perc);
    let w4 = ser_decimal(l.inherited_alloc_perc);
    let tail = seq![32u8] + (dn + (seq![32u8] + (de + (seq![32u8] + (w1 + (seq![32u8] + (w2 + (
    seq![32u8] + (w3 + (seq![32u8] + (w4 + seq![10u8])))))))))));
    let rA = l.cost_centre + (seq![32u8] + (l.module + tail));
    let rB = seq![32u8] + (l.module + tail);
    let rC = l.module + tail;
    lemma_concat_segment(s, pos, ind, rA);
    let q0 = pos + row.depth;
    lemma_concat_segment(s, q0, l.cost_centre, rB);
    let a = q0 + l.cost_centre.len();
    lemma_concat_segment(s, a, seq![32u8], rC);
    let b = a + 1;
    lemma_concat_segment(s, b, l.module, tail);
    let c = b + l.module.len();
    lemma_segment_bytes(s, pos, ind);
    lemma_segment_bytes(s, q0, l.cost_centre);
    lemma_segment_bytes(s, a, seq![32u8]);
    lemma_segment_bytes(s, b, l.module);
    lemma_ext_row_tail_at(s, c, l);
    assert(forall|k: int| pos <= k < q0 ==> is_space_byte(s[k]));
    assert(s[q0] == l.cost_centre[0] && !is_space_byte(s[q0]));
    lemma_scan_while_is(s, pos, q0, |x: u8| is_space_byte(x));
    assert(space_end(s, pos) == q0);
    assert(s[a] == 32);
    lemma_scan_while_is(s, q0, a, |x: u8| !is_space_byte(x));
    assert(a < s.len());
    assert(s[b] == l.module[0] && !is_space_byte(s[b]));
    lemma_scan_while_is(s, a, b, |x: u8| is_space_byte(x));
    assert(s[c] == 32) by {
        assert(tail[0] == 32);
        assert(s.subrange(c, c + tail.len())[0] == s[c]);
    }
    lemma_scan_while_is(s, b, c, |x: u8| !is_space_byte(x));
    assert(s.subrange(q0, a) == l.cost_centre);
    assert(s.subrange(b, c) == l.module);
    assert((q0 - pos) as nat == row.depth);
    let e6 = c + 1 + dn.len() + 1 + de.len() + 1 + w1.len() + 1 + w2.len() + 1 + w3.len() + 1
        + w4.len();
    let got = spec_parse_ext_row(s, pos);
    assert(got matches Ok((rr, pp)) && rr.depth == row.depth && rr.line.cost_centre
        == l.cost_centre && rr.line.module == l.module && rr.line.no == l.no && rr.line.entries
        == l.entries && rr.line.individual_time_perc == l.individual_time_perc
        && rr.line.individual_alloc_perc == l.individual_alloc_perc && rr.line.inherited_time_perc
        == l.inherited_time_perc && rr.line.inherited_alloc_perc == l.inherited_alloc_perc && pp
        == e6 + 1);
    assert(e6 + 1 == pos + ser_ext_row(row.depth, row.line).len());
}

/// The canonical text of the rows from `i` on.
pub open spec fn ser_rows(rows: Seq<DepthRowV>, i: int) -> Seq<u8>
    decreases rows.len() - i,
    when i >= 0
{
    if i >= rows.len() {
        Seq::empty()
    } else {
        ser_ext_row(rows[i].depth, rows[i].line) + ser_rows(rows, i + 1)
    }
}

/// The rows of a subtree, in source order: the node's own row, then its
/// children's rows.
pub open spec fn flatten_tree(t: RoseTreeV<ExtendedSummaryLineV>) -> Seq<DepthRowV>
    decreases t, 0int,
{
    seq![DepthRowV { depth: t.depth, line: t.value }] + flatten_forest(t.sub_forest)
}

/// The rows of a forest, in source order.
pub open spec fn flatten_forest(f: Seq<RoseTreeV<ExtendedSummaryLineV>>) -> Seq<DepthRowV>
    decreases f, 1int,
{
    if f.len() == 0 {
        Seq::empty()
    } else {
        flatten_tree(f[0]) + flatten_forest(f.drop_first())
    }
}

/// A subtree always flattens to at least its own row.
pub proof fn lemma_flatten_tree_len(t: RoseTreeV<ExtendedSummaryLineV>)
    ensures
        flatten_tree(t).len() >= 1,
        flatten_tree(t)[0] == (DepthRowV { depth: t.depth, line: t.value }),
{
}

/// Writing rows after a prefix only shifts positions.
pub proof fn lemma_ser_rows_shift(a: Seq<DepthRowV>, b: Seq<DepthRowV>, j: int)
    requires
        0 <= j <= b.len(),
    ensures
        ser_rows(a + b, a.len() + j) == ser_rows(b, j),
    decreases b.len() - j,
{
    if j < b.len() {
        assert((a + b)[a.len() + j] == b[j]);
        lemma_ser_rows_shift(a, b, j + 1);
    }
}

/// Writing two row lists in sequence writes their concatenation.
pub proof fn lemma_ser_rows_append_from(a: Seq<DepthRowV>, b: Seq<DepthRowV>, i: int)
    requires
        0 <= i <= a.len(),
    ensures
        ser_rows(a + b, i) == ser_rows(a, i) + ser_rows(b, 0),
    decreases a.len() - i,
{
    if i == a.len() {
        lemma_ser_rows_shift(a, b, 0);
        assert(Seq::<u8>::empty() + ser_rows(b, 0) =~= ser_rows(b, 0));
    } else {
        assert((a + b)[i] == a[i]);
        lemma_ser_rows_append_from(a, b, i + 1);
        assert((ser_ext_row(a[i].depth, a[i].line) + ser_rows(a, i + 1)) + ser_rows(b, 0)
            =~= ser_ext_row(a[i].depth, a[i].line) + (ser_rows(a, i + 1) + ser_rows(b, 0)));
    }
}

/// Writing a forest from an index on is writing the truncated forest.
pub proof fn lemma_ser_forest_drop(f: Seq<RoseTreeV<ExtendedSummaryLineV>>, i: int)
    requires
        1 <= i,
        f.len() >= 1,
    ensures
        crate::parser::ser::ser_forest_from(f, i) == crate::parser::ser::ser_forest_from(
            f.drop_first(),
            i - 1,
        ),
    decreases f.len() - i,
{
    if i < f.len() {
        assert(f.drop_first()[i - 1] == f[i]);
        lemma_ser_forest_drop(f, i + 1);
    }
}

/// The canonical text of a subtree is the canonical text of its rows.
pub proof fn lemma_ser_tree_flatten(t: RoseTreeV<ExtendedSummaryLineV>)
    ensures
        crate::parser::ser::ser_tree(t) == ser_rows(flatten_tree(t), 0),
    decreases t, 0int,
{
    let r0 = DepthRowV { depth: t.depth, line: t.value };
    let ff = flatten_forest(t.sub_forest);
    lemma_ser_forest_flatten(t.sub_forest);
    lemma_ser_rows_shift(seq![r0], ff, 0);
    assert((seq![r0] + ff)[0] == r0);
    assert(ser_rows(seq![r0] + ff, 0) == ser_ext_row(t.depth, t.value) + ser_rows(
        seq![r0] + ff,
        1,
    ));
}

/// The canonical text of a forest is the canonical text of its rows.
pub proof fn lemma_ser_forest_flatten(f: Seq<RoseTreeV<ExtendedSummaryLineV>>)
    ensures
        crate::parser::ser::ser_forest_from(f, 0) == ser_rows(flatten_forest(f), 0),
    decreases f, 1int,
{
    if f.len() == 0 {
    } else {
        lemma_ser_tree_flatten(f[0]);
        lemma_ser_forest_drop(f, 1);
        lemma_ser_forest_flatten(f.drop_first());
        lemma_ser_rows_append_from(flatten_tree(f[0]), flatten_forest(f.drop_first()), 0);
    }
}

/// Every row of `rows` carries a well-formed extended-summary line.
pub open spec fn wf_rows(rows: Seq<DepthRowV>) -> bool {
    forall|j: int| 0 <= j < rows.len() ==> wf_ext_line((#[trigger] rows[j]).line)
}

/// Every line in the subtree is well-formed.
pub open spec fn wf_lines_tree(t: RoseTreeV<ExtendedSummaryLineV>) -> bool
    decreases t, 0int,
{
    wf_ext_line(t.value) && wf_lines_forest(t.sub_forest)
}

/// Every line in the forest is well-formed.
pub open spec fn wf_lines_forest(f: Seq<RoseTreeV<ExtendedSummaryLineV>>) -> bool
    decreases f, 1int,
{
    f.len() == 0 || (wf_lines_tree(f[0]) && wf_lines_forest(f.drop_first()))
}

/// Well-formed lines in a subtree give well-formed flattened rows.
pub proof fn lemma_wf_lines_flatten_tree(t: RoseTreeV<ExtendedSummaryLineV>)
    requires
        wf_lines_tree(t),
    ensures
        wf_rows(flatten_tree(t)),
    decreases t, 0int,
{
    lemma_wf_lines_flatten_forest(t.sub_forest);
    let r0 = DepthRowV { depth: t.depth, line: t.value };
    let ff = flatten_forest(t.sub_forest);
    assert(forall|j: int| 0 <= j < ff.len() ==> (seq![r0] + ff)[1 + j] == ff[j]);
    assert(forall|j: int|
        0 <= j < flatten_tree(t).len() ==> wf_ext_line(
            (#[trigger] flatten_tree(t)[j]).line,
        )) by {
        assert(forall|j: int| 1 <= j < flatten_tree(t).len() ==> flatten_tree(t)[j] == ff[j - 1]);
        assert(flatten_tree(t)[0] == r0);
    }
}

/// Well-formed lines in a forest give well-formed flattened rows.
pub proof fn lemma_wf_lines_flatten_forest(f: Seq<RoseTreeV<ExtendedSummaryLineV>>)
    requires
        wf_lines_forest(f),
    ensures
        wf_rows(flatten_forest(f)),
    decreases f, 1int,
{
    if f.len() > 0 {
        lemma_wf_lines_flatten_tree(f[0]);
        lemma_wf_lines_flatten_forest(f.drop_first());
        let ft = flatten_tree(f[0]);
        let rest = flatten_forest(f.drop_first());
        assert(forall|j: int| 0 <= j < ft.len() ==> (ft + rest)[j] == ft[j]);
        assert(forall|j: int| 0 <= j < rest.len() ==> (ft + rest)[ft.len() + j] == rest[j]);
        assert(forall|j: int|
            0 <= j < flatten_forest(f).len() ==> wf_ext_line(
                (#[trigger] flatten_forest(f)[j]).line,
            )) by {
            assert(forall|j: int|
                ft.len() <= j < flatten_forest(f).len() ==> flatten_forest(f)[j] == rest[j
                    - ft.len()]);
        }
    }
}

/// Lexing the canonical text of rows that runs to the end of the buffer
/// gives the rows back.
pub proof fn lemma_lex_rows_at(s: Seq<u8>, pos: int, rows: Seq<DepthRowV>, i: int)
    requires
        0 <= i <= rows.len(),
        wf_rows(rows),
        0 <= pos,
        pos + ser_rows(rows, i).len() == s.len(),
        s.subrange(pos, s.len() as int) == ser_rows(rows, i),
    ensures
        crate::parser::tree::spec_lex_rows(s, pos) == (rows.skip(i), s.len() as int),
    decreases rows.len() - i,
{
    if i == rows.len() {
        assert(pos == s.len());
        let sp = |b: u8| is_space_byte(b);
        let tk = |b: u8| !is_space_byte(b);
        assert(scan_while(s, pos, sp) == pos);
        assert(scan_while(s, pos, tk) == pos);
        assert(spec_parse_ext_row(s, pos) == Err::<(DepthRowV, int), _>(
            ParseError::MalformedSection,
        ));
        assert(rows.skip(i) =~= Seq::<DepthRowV>::empty());
    } else {
        let row = ser_ext_row(rows[i].depth, rows[i].line);
        let rest = ser_rows(rows, i + 1);
        lemma_concat_segment(s, pos, row, rest);
        lemma_ext_row_at(s, pos, rows[i]);
        let p2 = pos + row.len();
        lemma_lex_rows_at(s, p2, rows, i + 1);
        assert(seq![rows[i]] + rows.skip(i + 1) =~= rows.skip(i));
    }
}

/// The node opens a child block deeper than `d`: the shape a non-final
/// member of a block at depth `d` must have.
pub open spec fn chains(c: RoseTreeV<ExtendedSummaryLineV>, d: nat) -> bool {
    c.sub_forest.len() > 0 && c.sub_forest[0].depth > d
}

/// The depth below which a peeked row closes this node: the node's own
/// depth for a leaf, its child block's depth otherwise.
pub open spec fn stop_bound(t: RoseTreeV<ExtendedSummaryLineV>) -> nat {
    if t.sub_forest.len() == 0 {
        t.depth
    } else {
        t.sub_forest[0].depth
    }
}

/// A tree the builder can produce: children form a block at one depth at
/// least the node's own, and every member of a block except the last opens
/// a deeper block (an equal-depth row always nests, so only a deeper row
/// can hand control back for a sibling).
pub open spec fn wf_tree(t: RoseTreeV<ExtendedSummaryLineV>) -> bool
    decreases t, 0int,
{
    t.sub_forest.len() == 0 || {
        &&& t.sub_forest[0].depth >= t.depth
        &&& wf_forest_block(t.sub_forest, t.sub_forest[0].depth)
    }
}

/// A child block at depth `d`: every member recorded at `d` and well
/// formed, every member but the last chaining deeper.
pub open spec fn wf_forest_block(f: Seq<RoseTreeV<ExtendedSummaryLineV>>, d: nat) -> bool
    decreases f, 1int,
{
    f.len() == 0 || {
        &&& f[0].depth == d
        &&& wf_tree(f[0])
        &&& (f.len() > 1 ==> chains(f[0], d))
        &&& wf_forest_block(f.drop_first(), d)
    }
}

/// Rebuilding a well-formed subtree from its own rows gives the subtree
/// back, whenever the row after them (if any) lies below its stop bound.
pub proof fn lemma_rebuild_node(rows: Seq<DepthRowV>, i: int, t: RoseTreeV<ExtendedSummaryLineV>)
    requires
        wf_tree(t),
        0 <= i,
        i + flatten_tree(t).len() <= rows.len(),
        rows.subrange(i, i + flatten_tree(t).len()) == flatten_tree(t),
        i + flatten_tree(t).len() == rows.len() || rows[i + flatten_tree(t).len()].depth
            < stop_bound(t),
    ensures
        spec_build_node(rows, i, t.depth) == (t, i + flatten_tree(t).len()),
    decreases t, 0int,
{
    let ft = flatten_tree(t);
    let r0 = DepthRowV { depth: t.depth, line: t.value };
    lemma_segment_bytes(rows, i, ft);
    assert(ft[0] == r0);
    assert(rows[i] == r0);
    let j = i + 1;
    if t.sub_forest.len() == 0 {
        assert(flatten_forest(t.sub_forest) =~= Seq::<DepthRowV>::empty());
        assert(ft =~= seq![r0]);
        assert(ft.len() == 1);
        let built = spec_build_node(rows, i, t.depth);
        assert(built.0.sub_forest =~= t.sub_forest);
        assert(built.0 == t);
    } else {
        let kids = t.sub_forest;
        let d = kids[0].depth;
        let ff = flatten_forest(kids);
        assert(ft == seq![r0] + ff);
        lemma_concat_segment(rows, i, seq![r0], ff);
        lemma_flatten_tree_len(kids[0]);
        assert(ff[0] == flatten_tree(kids[0])[0]) by {
            assert(ff == flatten_tree(kids[0]) + flatten_forest(kids.drop_first()));
        }
        lemma_segment_bytes(rows, j, ff);
        assert(rows[j] == ff[0]);
        assert(rows[j].depth == d);
        lemma_rebuild_forest(rows, j, d, kids);
        assert(spec_build_forest(rows, j, d) == (kids, i + ft.len()));
        let built = spec_build_node(rows, i, t.depth);
        assert(built.0 == t);
    }
}

/// Rebuilding a well-formed child block from its own rows gives the block
/// back, whenever the row after them (if any) lies below the block depth.
pub proof fn lemma_rebuild_forest(
    rows: Seq<DepthRowV>,
    j: int,
    d: nat,
    kids: Seq<RoseTreeV<ExtendedSummaryLineV>>,
)
    requires
        kids.len() >= 1,
        wf_forest_block(kids, d),
        0 <= j,
        j + flatten_forest(kids).len() <= rows.len(),
        rows.subrange(j, j + flatten_forest(kids).len()) == flatten_forest(kids),
        j + flatten_forest(kids).len() == rows.len() || rows[j + flatten_forest(kids).len()].depth
            < d,
    ensures
        spec_build_forest(rows, j, d) == (kids, j + flatten_forest(kids).len()),
    decreases kids, 1int,
{
    let ff = flatten_forest(kids);
    let ft0 = flatten_tree(kids[0]);
    let rest = flatten_forest(kids.drop_first());
    assert(ff == ft0 + rest);
    lemma_concat_segment(rows, j, ft0, rest);
    lemma_flatten_tree_len(kids[0]);
    let k = j + ft0.len();
    assert(kids[0].depth == d);
    if kids.len() > 1 {
        assert(kids.drop_first().len() >= 1);
        assert(rest == flatten_tree(kids.drop_first()[0]) + flatten_forest(
            kids.drop_first().drop_first(),
        ));
        lemma_flatten_tree_len(kids.drop_first()[0]);
        lemma_segment_bytes(rows, k, rest);
        assert(rest[0] == flatten_tree(kids.drop_first()[0])[0]);
        assert(rows[k] == rest[0]);
        assert(wf_forest_block(kids.drop_first(), d));
        assert(kids.drop_first()[0].depth == d);
        assert(rows[k].depth == d);
        assert(chains(kids[0], d));
        assert(stop_bound(kids[0]) > d);
        lemma_rebuild_node(rows, j, kids[0]);
        lemma_rebuild_forest(rows, k, d, kids.drop_first());
        assert(seq![kids[0]] + kids.drop_first() =~= kids);
        assert(j < k <= rows.len());
        assert(clamp_pos(k, j, rows.len() as int) == k);
        assert(spec_build_forest(rows, j, d) == (kids, j + ff.len()));
    } else {
        assert(kids.drop_first().len() == 0);
        assert(rest =~= Seq::<DepthRowV>::empty());
        assert(ff =~= ft0);
        assert(stop_bound(kids[0]) >= d) by {
            assert(wf_tree(kids[0]));
            if kids[0].sub_forest.len() > 0 {
                assert(kids[0].sub_forest[0].depth >= kids[0].depth);
            }
        }
        lemma_rebuild_node(rows, j, kids[0]);
        assert(seq![kids[0]] =~= kids);
        assert(j < k <= rows.len());
        assert(clamp_pos(k, j, rows.len() as int) == k);
        assert(!(k < rows.len() && rows[k].depth >= d));
        assert(spec_build_forest(rows, j, d) == (kids, j + ff.len()));
    }
}

/// Rebuilding a well-formed forest from exactly its own rows gives the
/// forest back.
pub proof fn lemma_rebuild_all(
    rows: Seq<DepthRowV>,
    j: int,
    f: Seq<RoseTreeV<ExtendedSummaryLineV>>,
)
    requires
        wf_forest_block(f, 0),
        0 <= j,
        j + flatten_forest(f).len() == rows.len(),
        rows.subrange(j, j + flatten_forest(f).len()) == flatten_forest(f),
    ensures
        spec_build_all(rows, j) == f,
    decreases f, 1int,
{
    if f.len() == 0 {
        assert(flatten_forest(f).len() == 0);
        assert(spec_build_all(rows, j) =~= Seq::<RoseTreeV<ExtendedSummaryLineV>>::empty());
        assert(f =~= Seq::<RoseTreeV<ExtendedSummaryLineV>>::empty());
    } else {
        let ft0 = flatten_tree(f[0]);
        let rest = flatten_forest(f.drop_first());
        assert(flatten_forest(f) == ft0 + rest);
        lemma_concat_segment(rows, j, ft0, rest);
        lemma_flatten_tree_len(f[0]);
        let k = j + ft0.len();
        assert(f[0].depth == 0);
        if f.len() > 1 {
            assert(f.drop_first().len() >= 1);
            assert(rest == flatten_tree(f.drop_first()[0]) + flatten_forest(
                f.drop_first().drop_first(),
            ));
            lemma_flatten_tree_len(f.drop_first()[0]);
            lemma_segment_bytes(rows, k, rest);
            assert(rows[k] == rest[0]);
            assert(wf_forest_block(f.drop_first(), 0));
            assert(f.drop_first()[0].depth == 0);
            assert(rows[k].depth == 0);
            assert(chains(f[0], 0));
            assert(stop_bound(f[0]) > 0);
            lemma_rebuild_node(rows, j, f[0]);
        } else {
            assert(rest =~= Seq::<DepthRowV>::empty());
            assert(k == rows.len());
            lemma_rebuild_node(rows, j, f[0]);
        }
        lemma_rebuild_all(rows, k, f.drop_first());
        assert(j < k <= rows.len());
        assert(clamp_pos(k, j, rows.len() as int) == k);
        assert(j < rows.len());
        assert(seq![f[0]] + f.drop_first() =~= f);
        assert(spec_build_all(rows, j) == f);
    }
}

/// What the builder makes of one node is well formed: recorded at the
/// asked depth, chain-shaped, with well-formed lines, and closed by a row
/// below its stop bound (or by the end of the rows).
pub proof fn lemma_build_node_wf(rows: Seq<DepthRowV>, i: int, cur: nat)
    requires
        wf_rows(rows),
        0 <= i < rows.len(),
    ensures
        ({
            let (t, k) = spec_build_node(rows, i, cur);
            &&& t.depth == cur
            &&& wf_tree(t)
            &&& wf_lines_tree(t)
            &&& i < k <= rows.len()
            &&& (k < rows.len() ==> rows[k].depth < stop_bound(t))
        }),
    decreases rows.len() - i, 0int,
{
    let j = i + 1;
    assert(wf_ext_line(rows[i].line));
    if j >= rows.len() || rows[j].depth < cur {
        let (t, k) = spec_build_node(rows, i, cur);
        assert(wf_lines_forest(t.sub_forest));
    } else {
        let d = rows[j].depth;
        lemma_build_forest_wf(rows, j, d);
        let (kids, k) = spec_build_forest(rows, j, d);
        let (t, k2) = spec_build_node(rows, i, cur);
        assert(t.sub_forest == kids && k2 == k);
        assert(kids[0].depth == d) by {
            assert(wf_forest_block(kids, d));
        }
        assert(stop_bound(t) == d);
        assert(wf_tree(t));
    }
}

/// What the builder makes of one child block is a well-formed block,
/// closed by a row below the block depth (or by the end of the rows).
pub proof fn lemma_build_forest_wf(rows: Seq<DepthRowV>, j: int, d: nat)
    requires
        wf_rows(rows),
        0 <= j < rows.len(),
    ensures
        ({
            let (kids, k) = spec_build_forest(rows, j, d);
            &&& kids.len() >= 1
            &&& kids[0].depth == d
            &&& wf_forest_block(kids, d)
            &&& wf_lines_forest(kids)
            &&& j < k <= rows.len()
            &&& (k < rows.len() ==> rows[k].depth < d)
        }),
    decreases rows.len() - j, 1int,
{
    lemma_build_node_wf(rows, j, d);
    let (t0, k0) = spec_build_node(rows, j, d);
    assert(clamp_pos(k0, j, rows.len() as int) == k0);
    let (kids, k) = spec_build_forest(rows, j, d);
    if k0 < rows.len() && rows[k0].depth >= d {
        assert(rows[k0].depth < stop_bound(t0));
        assert(stop_bound(t0) > d);
        assert(t0.sub_forest.len() > 0) by {
            if t0.sub_forest.len() == 0 {
                assert(stop_bound(t0) == d);
            }
        }
        assert(chains(t0, d));
        lemma_build_forest_wf(rows, k0, d);
        let (rest, m) = spec_build_forest(rows, k0, d);
        assert(kids == seq![t0] + rest);
        assert(kids[0] == t0);
        assert(kids.drop_first() =~= rest);
        assert(kids.len() > 1);
        assert(wf_forest_block(kids, d)) by {
            assert(kids[0].depth == d);
            assert(wf_tree(kids[0]));
            assert(chains(kids[0], d));
            assert(wf_forest_block(kids.drop_first(), d));
        }
        assert(wf_lines_forest(kids)) by {
            assert(wf_lines_tree(kids[0]));
            assert(wf_lines_forest(kids.drop_first()));
        }
    } else {
        assert(kids == seq![t0]);
        assert(kids[0] == t0);
        assert(kids.drop_first() =~= Seq::<RoseTreeV<ExtendedSummaryLineV>>::empty());
        assert(wf_forest_block(kids, d)) by {
            assert(kids[0].depth == d);
            assert(wf_tree(kids[0]));
            assert(wf_forest_block(kids.drop_first(), d));
        }
        assert(wf_lines_forest(kids)) by {
            assert(wf_lines_tree(kids[0]));
            assert(wf_lines_forest(kids.drop_first()));
        }
    }
}

/// What the builder makes of the whole row list is a well-formed,
/// non-empty forest of roots recorded at depth zero.
pub proof fn lemma_build_all_wf(rows: Seq<DepthRowV>, i: int)
    requires
        wf_rows(rows),
        0 <= i,
    ensures
        wf_forest_block(spec_build_all(rows, i), 0),
        wf_lines_forest(spec_build_all(rows, i)),
        i < rows.len() ==> spec_build_all(rows, i).len() >= 1,
    decreases rows.len() - i,
{
    if i >= rows.len() {
    } else {
        lemma_build_node_wf(rows, i, 0);
        let (t, k) = spec_build_node(rows, i, 0);
        assert(clamp_pos(k, i, rows.len() as int) == k);
        lemma_build_all_wf(rows, k);
        let rest = spec_build_all(rows, k);
        let f = spec_build_all(rows, i);
        assert(f == seq![t] + rest);
        assert(f[0] == t);
        assert(f.drop_first() =~= rest);
        if f.len() > 1 {
            assert(rest.len() >= 1);
            assert(k < rows.len());
            assert(rows[k].depth < stop_bound(t));
            assert(t.sub_forest.len() > 0) by {
                if t.sub_forest.len() == 0 {
                    assert(stop_bound(t) == 0);
                }
            }
            assert(chains(t, 0));
        }
        assert(wf_forest_block(f, 0)) by {
            assert(f[0].depth == 0);
            assert(wf_tree(f[0]));
            assert(f.len() > 1 ==> chains(f[0], 0));
            assert(wf_forest_block(f.drop_first(), 0));
        }
        assert(wf_lines_forest(f)) by {
            assert(wf_lines_tree(f[0]));
            assert(wf_lines_forest(f.drop_first()));
        }
    }
}

/// A report the canonical writer can round-trip: line texts and tokens
/// well formed, and the forest shaped as the builder shapes forests. Every
/// report the parser returns satisfies this ([`lemma_parse_gives_wf`]).
pub open spec fn wf_prof(p: GHCProfV) -> bool {
    &&& wf_text(p.header.title)
    &&& wf_text(p.header.program)
    &&& forall|j: int| 0 <= j < p.summary.len() ==> wf_summary_row(#[trigger] p.summary[j])
    &&& p.extended_summary.len() >= 1
    &&& wf_forest_block(p.extended_summary, 0)
    &&& wf_lines_forest(p.extended_summary)
}

/// A parsed line text is well formed.
pub proof fn lemma_text_line_wf(s: Seq<u8>, pos: int)
    requires
        0 <= pos <= s.len(),
    ensures
        (spec_text_line(s, pos) matches Ok((t, _)) ==> wf_text(t)),
{
    let sp = |b: u8| is_space_byte(b);
    let nb = |b: u8| !is_break_byte(b);
    lemma_scan_while(s, pos, sp);
    let i = space_end(s, pos);
    lemma_scan_while(s, i, nb);
    let j = line_text_end(s, i);
    if let Ok((t, _)) = spec_text_line(s, pos) {
        assert(t == s.subrange(i, j));
        assert(forall|k: int| 0 <= k < t.len() ==> t[k] == s[i + k]);
        if t.len() > 0 {
            assert(t[0] == s[i]);
        }
    }
}

/// An empty numeric run never parses.
proof fn lemma_empty_num_err(s: Seq<u8>)
    ensures
        spec_parse_decimal(s, s.len() as int) == Err::<(Decimal, int), _>(
            ParseError::MalformedNumber,
        ),
        spec_parse_u32(s, s.len() as int) == Err::<(u32, int), _>(ParseError::MalformedNumber),
    decreases 0int,
{
    let n = s.len() as int;
    assert(scan_while(s, n, |b: u8| is_numlike_byte(b)) == n);
    assert(s.subrange(n, n) =~= Seq::<u8>::empty());
    assert(strip_commas(Seq::<u8>::empty()) == Seq::<u8>::empty());
    assert(remove_dots(Seq::<u8>::empty()) == Seq::<u8>::empty());
    assert(dot_count(Seq::<u8>::empty()) == 0);
}

/// A flat-summary row parsed where no terminator stands is well formed.
pub proof fn lemma_summary_line_wf(s: Seq<u8>, pos: int)
    requires
        0 <= pos <= s.len(),
        spec_line_ending(s, pos) is None,
    ensures
        (spec_parse_summary_line(s, pos) matches Ok((l, _)) ==> wf_summary_row(l)),
{
    let tk = |b: u8| !is_space_byte(b);
    let sp = |b: u8| is_space_byte(b);
    lemma_scan_while(s, pos, tk);
    let a = token_end(s, pos);
    if a < s.len() {
        lemma_scan_while(s, a, sp);
        let b = space_end(s, a);
        lemma_scan_while(s, b, tk);
        let c = token_end(s, b);
        lemma_scan_while(s, c, sp);
        if let Ok((l, _)) = spec_parse_summary_line(s, pos) {
            assert(l.cost_centre == s.subrange(pos, a));
            assert(l.module == s.subrange(b, c));
            assert(forall|k: int| 0 <= k < a - pos ==> l.cost_centre[k] == s[pos + k]);
            assert(forall|k: int| 0 <= k < c - b ==> l.module[k] == s[b + k]);
            if b >= s.len() {
                assert(b == s.len() && c == b && space_end(s, c) == b);
                lemma_empty_num_err(s);
                assert(false);
            }
            assert(!is_space_byte(s[b]));
            assert(c > b);
            if l.cost_centre.len() > 0 {
                assert(l.cost_centre[0] == s[pos]);
                assert(s[pos] != 10);
            }
            if l.cost_centre.len() > 1 {
                assert(l.cost_centre[1] == s[pos + 1]);
                assert(pos + 1 < s.len());
                assert(!(s[pos] == 13 && s[pos + 1] == 10));
            }
        }
    }
}

/// Every row the flat-summary section returns is well formed.
pub proof fn lemma_summary_rows_wf(s: Seq<u8>, pos: int)
    requires
        0 <= pos <= s.len(),
    ensures
        (spec_parse_summary(s, pos) matches Ok((rows, _)) ==> forall|j: int|
            0 <= j < rows.len() ==> wf_summary_row(#[trigger] rows[j])),
    decreases s.len() - pos,
{
    crate::parser::summary::lemma_summary_line_advances(s, pos);
    match spec_line_ending(s, pos) {
        Some(_) => {
        },
        None => {
            lemma_summary_line_wf(s, pos);
            match spec_parse_summary_line(s, pos) {
                Err(_) => {
                },
                Ok((line, p2)) => {
                    lemma_summary_rows_wf(s, p2);
                    if let Ok((rest, _)) = spec_parse_summary(s, p2) {
                        assert(forall|j: int|
                            0 <= j < rest.len() ==> (seq![line] + rest)[1 + j] == rest[j]);
                        assert((seq![line] + rest)[0] == line);
                    }
                },
            }
        },
    }
}

/// An extended-summary row the parser returns is well formed.
pub proof fn lemma_ext_row_wf(s: Seq<u8>, pos: int)
    requires
        0 <= pos <= s.len(),
    ensures
        (spec_parse_ext_row(s, pos) matches Ok((row, _)) ==> wf_ext_line(row.line)),
{
    let tk = |b: u8| !is_space_byte(b);
    let sp = |b: u8| is_space_byte(b);
    lemma_scan_while(s, pos, sp);
    let i = space_end(s, pos);
    lemma_scan_while(s, i, tk);
    let a = token_end(s, i);
    if a < s.len() {
        lemma_scan_while(s, a, sp);
        let b = space_end(s, a);
        lemma_scan_while(s, b, tk);
        let c = token_end(s, b);
        lemma_scan_while(s, c, sp);
        if let Ok((row, _)) = spec_parse_ext_row(s, pos) {
            assert(row.line.cost_centre == s.subrange(i, a));
            assert(row.line.module == s.subrange(b, c));
            assert(forall|k: int| 0 <= k < a - i ==> row.line.cost_centre[k] == s[i + k]);
            assert(forall|k: int| 0 <= k < c - b ==> row.line.module[k] == s[b + k]);
            if i >= s.len() {
                assert(a == i);
                assert(false);
            }
            assert(!is_space_byte(s[i]));
            assert(a > i);
            if b >= s.len() {
                assert(b == s.len() && c == b && space_end(s, c) == b);
                lemma_empty_num_err(s);
                assert(false);
            }
            assert(!is_space_byte(s[b]));
            assert(c > b);
        }
    }
}

/// Every row the lexer returns is well formed.
pub proof fn lemma_lex_rows_wf(s: Seq<u8>, pos: int)
    requires
        0 <= pos <= s.len(),
    ensures
        wf_rows(spec_lex_rows(s, pos).0),
    decreases s.len() - pos,
{
    crate::parser::tree::lemma_ext_row_advances(s, pos);
    lemma_ext_row_wf(s, pos);
    match spec_parse_ext_row(s, pos) {
        Err(_) => {
        },
        Ok((row, p)) => {
            lemma_lex_rows_wf(s, p);
            let rest = spec_lex_rows(s, p).0;
            assert(forall|j: int| 0 <= j < rest.len() ==> (seq![row] + rest)[1 + j] == rest[j]);
            assert((seq![row] + rest)[0] == row);
        },
    }
}

/// Bounds of a parsed line.
pub proof fn lemma_bounds_text_line(s: Seq<u8>, pos: int)
    requires
        0 <= pos <= s.len(),
    ensures
        (spec_text_line(s, pos) matches Ok((t, p)) ==> pos < p <= s.len()),
{
    lemma_scan_while(s, pos, |b: u8| is_space_byte(b));
    lemma_scan_while(s, space_end(s, pos), |b: u8| !is_break_byte(b));
}

/// Bounds of a parsed number run.
pub proof fn lemma_bounds_num(s: Seq<u8>, pos: int)
    requires
        0 <= pos <= s.len(),
    ensures
        (spec_parse_decimal(s, pos) matches Ok((_, p)) ==> pos <= p <= s.len()),
        (spec_parse_u32(s, pos) matches Ok((_, p)) ==> pos <= p <= s.len()),
        (spec_parse_u16(s, pos) matches Ok((_, p)) ==> pos <= p <= s.len()),
        (spec_parse_u8(s, pos) matches Ok((_, p)) ==> pos <= p <= s.len()),
        (spec_parse_u64(s, pos) matches Ok((_, p)) ==> pos <= p <= s.len()),
    decreases 0int,
{
    lemma_scan_while(s, pos, |b: u8| is_numlike_byte(b));
}

/// Bounds of the parsed total-time line.
pub proof fn lemma_bounds_total_time(s: Seq<u8>, pos: int)
    requires
        0 <= pos <= s.len(),
    ensures
        (spec_total_time(s, pos) matches Ok((_, p)) ==> pos < p <= s.len()),
{
    if 0 <= pos < s.len() && is_space_byte(s[pos]) {
        lemma_scan_while(s, pos, |b: u8| is_space_byte(b));
        lemma_scan_while(s, space_end(s, pos), |b: u8| !is_digit_byte(b));
        let i2 = digit_start(s, space_end(s, pos));
        lemma_bounds_num(s, i2);
        if let Ok((_, i3)) = spec_parse_decimal(s, i2) {
            lemma_scan_while(s, i3, |b: u8| b != 40);
            let i4 = paren_start(s, i3);
            if i4 < s.len() {
                lemma_bounds_num(s, i4 + 1);
                if let Ok((_, i5)) = spec_parse_u32(s, i4 + 1) {
                    lemma_scan_while(s, i5, |b: u8| !is_digit_byte(b));
                    lemma_bounds_num(s, digit_start(s, i5));
                    if let Ok((_, i7)) = spec_parse_u16(s, digit_start(s, i5)) {
                        lemma_scan_while(s, i7, |b: u8| !is_digit_byte(b));
                        lemma_bounds_num(s, digit_start(s, i7));
                        if let Ok((_, i9)) = spec_parse_u8(s, digit_start(s, i7)) {
                            lemma_scan_while(s, i9, |b: u8| !is_break_byte(b));
                        }
                    }
                }
            }
        }
    }
}

/// Bounds of the parsed total-alloc line.
pub proof fn lemma_bounds_total_alloc(s: Seq<u8>, pos: int)
    requires
        0 <= pos <= s.len(),
    ensures
        (spec_total_alloc(s, pos) matches Ok((_, p)) ==> pos < p <= s.len()),
{
    if 0 <= pos < s.len() && is_space_byte(s[pos]) {
        lemma_scan_while(s, pos, |b: u8| is_space_byte(b));
        lemma_scan_while(s, space_end(s, pos), |b: u8| !is_digit_byte(b));
        let i2 = digit_start(s, space_end(s, pos));
        lemma_bounds_num(s, i2);
        if let Ok((_, i3)) = spec_parse_u64(s, i2) {
            lemma_scan_while(s, i3, |b: u8| !is_break_byte(b));
        }
    }
}

/// Bounds of the parsed header block.
pub proof fn lemma_bounds_header(s: Seq<u8>, pos: int)
    requires
        0 <= pos <= s.len(),
    ensures
        (spec_parse_header(s, pos) matches Ok((_, p)) ==> pos < p <= s.len()),
{
    lemma_bounds_text_line(s, pos);
    if let Ok((_, p1)) = spec_text_line(s, pos) {
        if let Some(p2) = spec_line_ending(s, p1) {
            lemma_bounds_text_line(s, p2);
            if let Ok((_, p3)) = spec_text_line(s, p2) {
                if let Some(p4) = spec_line_ending(s, p3) {
                    lemma_bounds_total_time(s, p4);
                    if let Ok((_, p5)) = spec_total_time(s, p4) {
                        lemma_bounds_total_alloc(s, p5);
                    }
                }
            }
        }
    }
}

/// Bounds of the parsed flat-summary section.
pub proof fn lemma_bounds_summary(s: Seq<u8>, pos: int)
    requires
        0 <= pos <= s.len(),
    ensures
        (spec_parse_summary(s, pos) matches Ok((_, p)) ==> pos < p <= s.len()),
    decreases s.len() - pos,
{
    crate::parser::summary::lemma_summary_line_advances(s, pos);
    match spec_line_ending(s, pos) {
        Some(_) => {
        },
        None => {
            if let Ok((_, p2)) = spec_parse_summary_line(s, pos) {
                lemma_bounds_summary(s, p2);
            }
        },
    }
}

/// Bounds of the parsed separator block.
pub proof fn lemma_bounds_sep(s: Seq<u8>, pos: int)
    requires
        0 <= pos <= s.len(),
    ensures
        (crate::parser::summary::spec_summaries_sep(s, pos) matches Ok(p) ==> pos < p
            <= s.len()),
{
    if let Some(p1) = spec_line_ending(s, pos) {
        lemma_bounds_text_line(s, p1);
        if let Ok((_, p2)) = spec_text_line(s, p1) {
            lemma_bounds_text_line(s, p2);
        }
    }
}

/// Every report the parser returns is well formed, so the canonical writer
/// can round-trip it.
pub proof fn lemma_parse_gives_wf(s: Seq<u8>, pos: int)
    requires
        0 <= pos <= s.len(),
    ensures
        (spec_parse_prof(s, pos) matches Ok((p, _)) ==> wf_prof(p)),
{
    if spec_parse_prof(s, pos) is Ok {
        lemma_text_line_wf(s, pos);
        lemma_bounds_text_line(s, pos);
        let (title, q1) = spec_text_line(s, pos).unwrap();
        let q2 = spec_line_ending(s, q1).unwrap();
        lemma_text_line_wf(s, q2);
        lemma_bounds_text_line(s, q2);
        lemma_bounds_header(s, pos);
        let (h, ph) = spec_parse_header(s, pos).unwrap();
        let pa = spec_line_ending(s, ph).unwrap();
        lemma_bounds_text_line(s, pa);
        let (_, pb) = spec_text_line(s, pa).unwrap();
        let p4 = spec_line_ending(s, pb).unwrap();
        lemma_summary_rows_wf(s, p4);
        lemma_bounds_summary(s, p4);
        let (rows_flat, p5) = spec_parse_summary(s, p4).unwrap();
        lemma_bounds_sep(s, p5);
        let p6 = crate::parser::summary::spec_summaries_sep(s, p5).unwrap();
        lemma_lex_rows_wf(s, p6);
        crate::parser::tree::lemma_lex_rows_bounds(s, p6);
        let (rows, _) = spec_lex_rows(s, p6);
        lemma_build_all_wf(rows, 0);
    }
}

/// The header, the flat-summary column-header filler and the flat summary
/// of a canonical report parse back from the start of the text.
#[verifier::rlimit(100)]
pub proof fn lemma_head_and_summary_at(s: Seq<u8>, p: GHCProfV)
    requires
        wf_prof(p),
        ser_header(p.header).len() + 3 + ser_summary_from(p.summary, 0).len() <= s.len(),
        s.subrange(0, ser_header(p.header).len() as int) == ser_header(p.header),
        s[ser_header(p.header).len() as int] == 10,
        s[ser_header(p.header).len() + 1int] == 10,
        s[ser_header(p.header).len() + 2int] == 10,
        s.subrange(
            ser_header(p.header).len() + 3int,
            ser_header(p.header).len() + 3int + ser_summary_from(p.summary, 0).len(),
        ) == ser_summary_from(p.summary, 0),
    ensures
        crate::parser::summary::spec_header_and_summary(s, 0) == Ok::<_, ParseError>(
            (
                (p.header, p.summary),
                ser_header(p.header).len() + 3int + ser_summary_from(p.summary, 0).len(),
            ),
        ),
{
    let p1 = ser_header(p.header).len() as int;
    let p2 = p1 + 1;
    let p3 = p2 + 1;
    let p4 = p3 + 1;
    lemma_header_at(s, 0, p.header);
    assert(spec_line_ending(s, p1) == Some(p2));
    lemma_scan_while_is(s, p2, p2, |b: u8| is_space_byte(b));
    lemma_scan_while_is(s, p2, p2, |b: u8| !is_break_byte(b));
    assert(spec_line_ending(s, p2) == Some(p3));
    assert(spec_text_line(s, p2) == Ok::<_, ParseError>((s.subrange(p2, p2), p3)));
    assert(spec_line_ending(s, p3) == Some(p4));
    lemma_summary_section_at(s, p4, p.summary, 0);
    assert(p.summary.skip(0) =~= p.summary);
}

/// The canonical extended summary, standing at the end of the buffer,
/// parses back to its forest.
#[verifier::rlimit(100)]
pub proof fn lemma_ext_section_at(s: Seq<u8>, p6: int, f: Seq<RoseTreeV<ExtendedSummaryLineV>>)
    requires
        f.len() >= 1,
        wf_forest_block(f, 0),
        wf_lines_forest(f),
        0 <= p6,
        p6 + ser_forest_from(f, 0).len() == s.len(),
        s.subrange(p6, s.len() as int) == ser_forest_from(f, 0),
    ensures
        spec_parse_extended_summary(s, p6) == Ok::<_, ParseError>((f, s.len() as int)),
{
    let rows = flatten_forest(f);
    lemma_ser_forest_flatten(f);
    lemma_wf_lines_flatten_forest(f);
    assert(s.subrange(p6, s.len() as int) == ser_rows(rows, 0));
    lemma_lex_rows_at(s, p6, rows, 0);
    assert(rows.skip(0) =~= rows);
    assert(spec_lex_rows(s, p6) == (rows, s.len() as int));
    assert(rows.len() >= 1) by {
        lemma_flatten_tree_len(f[0]);
        assert(flatten_forest(f) == flatten_tree(f[0]) + flatten_forest(f.drop_first()));
    }
    assert(rows.subrange(0, rows.len() as int) =~= rows);
    lemma_rebuild_all(rows, 0, f);
}

/// Where each section of a canonical report stands in its text.
#[verifier::rlimit(100)]
pub proof fn lemma_prof_layout(p: GHCProfV)
    ensures
        ({
            let s = ser_prof(p);
            let p1 = ser_header(p.header).len() as int;
            let p4 = p1 + 3;
            let p5 = p4 + ser_summary_from(p.summary, 0).len();
            let p6 = p5 + 4;
            &&& s.len() == p6 + ser_forest_from(p.extended_summary, 0).len()
            &&& s.subrange(0, p1) == ser_header(p.header)
            &&& s[p1] == 10 && s[p1 + 1] == 10 && s[p1 + 2] == 10
            &&& s.subrange(p4, p5) == ser_summary_from(p.summary, 0)
            &&& s[p5] == 10 && s[p5 + 1] == 10 && s[p5 + 2] == 10 && s[p5 + 3] == 10
            &&& s.subrange(p6, s.len() as int) == ser_forest_from(p.extended_summary, 0)
        }),
{
    let s = ser_prof(p);
    let hd = ser_header(p.header);
    let sm = ser_summary_from(p.summary, 0);
    let fo = ser_forest_from(p.extended_summary, 0);
    let r1 = seq![10u8] + (seq![10u8] + (seq![10u8] + (sm + (seq![10u8] + (seq![10u8] + (
    seq![10u8] + (seq![10u8] + fo)))))));
    let r2 = seq![10u8] + (seq![10u8] + (sm + (seq![10u8] + (seq![10u8] + (seq![10u8] + (
    seq![10u8] + fo))))));
    let r3 = seq![10u8] + (sm + (seq![10u8] + (seq![10u8] + (seq![10u8] + (seq![10u8] + fo)))));
    let r4 = sm + (seq![10u8] + (seq![10u8] + (seq![10u8] + (seq![10u8] + fo))));
    let r5 = seq![10u8] + (seq![10u8] + (seq![10u8] + (seq![10u8] + fo)));
    let r6 = seq![10u8] + (seq![10u8] + (seq![10u8] + fo));
    let r7 = seq![10u8] + (seq![10u8] + fo);
    let r8 = seq![10u8] + fo;
    assert(s.subrange(0, s.len() as int) =~= s);
    lemma_concat_segment(s, 0, hd, r1);
    let p1 = hd.len() as int;
    lemma_concat_segment(s, p1, seq![10u8], r2);
    let p2 = p1 + 1;
    lemma_concat_segment(s, p2, seq![10u8], r3);
    let p3 = p2 + 1;
    lemma_concat_segment(s, p3, seq![10u8], r4);
    let p4 = p3 + 1;
    lemma_concat_segment(s, p4, sm, r5);
    let p5 = p4 + sm.len();
    lemma_concat_segment(s, p5, seq![10u8], r6);
    lemma_concat_segment(s, p5 + 1, seq![10u8], r7);
    lemma_concat_segment(s, p5 + 2, seq![10u8], r8);
    lemma_concat_segment(s, p5 + 3, seq![10u8], fo);
    lemma_segment_bytes(s, p1, seq![10u8]);
    lemma_segment_bytes(s, p2, seq![10u8]);
    lemma_segment_bytes(s, p3, seq![10u8]);
    lemma_segment_bytes(s, p5, seq![10u8]);
    lemma_segment_bytes(s, p5 + 1, seq![10u8]);
    lemma_segment_bytes(s, p5 + 2, seq![10u8]);
    lemma_segment_bytes(s, p5 + 3, seq![10u8]);
}

/// Reparsing the canonical text of a well-formed report yields the same
/// report, every field equal, and consumes the whole text: the idempotence
/// of parse, write, parse.
#[verifier::rlimit(100)]
pub proof fn lemma_canonical_roundtrip(p: GHCProfV)
    requires
        wf_prof(p),
    ensures
        spec_parse_prof(ser_prof(p), 0) == Ok::<_, ParseError>((p, ser_prof(p).len() as int)),
{
    let s = ser_prof(p);
    let p1 = ser_header(p.header).len() as int;
    let p4 = p1 + 3;
    let p5 = p4 + ser_summary_from(p.summary, 0).len();
    let p6 = p5 + 4;
    lemma_prof_layout(p);
    lemma_head_and_summary_at(s, p);
    assert(crate::parser::summary::spec_header_and_summary(s, 0) == Ok::<_, ParseError>(
        ((p.header, p.summary), p5),
    ));
    assert(s.subrange(p5, p5 + 4) =~= seq![10u8, 10u8, 10u8, 10u8]);
    lemma_sep_at(s, p5);
    lemma_ext_section_at(s, p6, p.extended_summary);
    let got = spec_parse_prof(s, 0);
    assert(got matches Ok((pp, nn)) && pp.header == p.header && pp.summary == p.summary
        && pp.extended_summary == p.extended_summary && nn == s.len());
}

/// Parsing, writing canonically, and parsing again yields the same report:
/// the parsed values fix the canonical text, and that text parses to them.
pub proof fn lemma_parse_write_parse(s: Seq<u8>, p: GHCProfV, n: int)
    requires
        spec_parse_prof(s, 0) == Ok::<_, ParseError>((p, n)),
    ensures
        spec_parse_prof(ser_prof(p), 0) == Ok::<_, ParseError>((p, ser_prof(p).len() as int)),
{
    lemma_parse_gives_wf(s, 0);
    lemma_canonical_roundtrip(p);
}

} // verus!

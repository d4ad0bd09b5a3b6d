//! The numeric lexer: maximal digit-and-punctuation runs converted to typed
//! numbers, tolerating `,` thousands separators.
//!
//! A fractional value is kept exactly as a [`Decimal`]: an integer mantissa
//! and the count of digits after the decimal point. An empty run, a run that
//! does not fit the target type, or a run with more than one `.` is a
//! [`ParseError::MalformedNumber`], never a silent default.
use vstd::prelude::*;
use crate::parser::lex::{
    is_digit_byte, is_numlike_byte, numlike_end, scan_numlike, ParseError,
};

verus! {

/// An exact decimal number: the digit string with the point removed, read as
/// an integer (`mantissa`), and the number of digits after the point
/// (`scale`). The value denoted is `mantissa / 10^scale`.
#[derive(Clone, Copy, Debug, PartialEq, Eq, Structural)]
pub struct Decimal {
    pub mantissa: u64,
    pub scale: usize,
}

impl Decimal {
    /// Builds the decimal `mantissa / 10^scale`.
    pub fn new(mantissa: u64, scale: usize) -> (r: Decimal)
        ensures
            r == (Decimal { mantissa, scale }),
    {
        Decimal { mantissa, scale }
    }
}

/// `10^k`.
pub open spec fn pow10(k: nat) -> int
    decreases k,
{
    if k == 0 {
        1
    } else {
        10 * pow10((k - 1) as nat)
    }
}

/// The bytes of `t` with every `,` removed, in order.
pub open spec fn strip_commas(t: Seq<u8>) -> Seq<u8>
    decreases t.len(),
{
    if t.len() == 0 {
        Seq::empty()
    } else if t.last() == 44 {
        strip_commas(t.drop_last())
    } else {
        strip_commas(t.drop_last()).push(t.last())
    }
}

/// The bytes of `t` with every `.` removed, in order.
pub open spec fn remove_dots(t: Seq<u8>) -> Seq<u8>
    decreases t.len(),
{
    if t.len() == 0 {
        Seq::empty()
    } else if t.last() == 46 {
        remove_dots(t.drop_last())
    } else {
        remove_dots(t.drop_last()).push(t.last())
    }
}

/// How many `.` bytes `t` holds.
pub open spec fn dot_count(t: Seq<u8>) -> int
    decreases t.len(),
{
    if t.len() == 0 {
        0
    } else {
        dot_count(t.drop_last()) + if t.last() == 46 {
            1int
        } else {
            0int
        }
    }
}

/// Every byte of `t` is a decimal digit.
pub open spec fn all_digits(t: Seq<u8>) -> bool {
    forall|i: int| 0 <= i < t.len() ==> is_digit_byte(t[i])
}

/// The number denoted by the digit string `t`, most significant digit first.
pub open spec fn fold_digits(t: Seq<u8>) -> int
    decreases t.len(),
{
    if t.len() == 0 {
        0
    } else {
        fold_digits(t.drop_last()) * 10 + (t.last() - 48)
    }
}

/// How many digits of `t` stand after its last `.`; zero when `t` has none.
pub open spec fn scale_of(t: Seq<u8>) -> int
    decreases t.len(),
{
    if t.len() == 0 {
        0
    } else if t.last() == 46 {
        0
    } else if dot_count(t.drop_last()) > 0 {
        scale_of(t.drop_last()) + 1
    } else {
        0
    }
}

/// `pow10` is at least one and never decreases.
pub proof fn lemma_pow10_pos(k: nat)
    ensures
        pow10(k) >= 1,
    decreases k,
{
    if k > 0 {
        lemma_pow10_pos((k - 1) as nat);
    }
}

/// Folding distributes over concatenation: the left digits are shifted by
/// one power of ten for each right digit.
pub proof fn lemma_fold_concat(a: Seq<u8>, b: Seq<u8>)
    ensures
        fold_digits(a + b) == fold_digits(a) * pow10(b.len()) + fold_digits(b),
    decreases b.len(),
{
    if b.len() == 0 {
        assert(a + b =~= a);
        assert(pow10(0) == 1);
        assert(fold_digits(b) == 0);
        assert(fold_digits(a) * 1 == fold_digits(a)) by (nonlinear_arith);
    } else {
        let n = (b.len() - 1) as nat;
        lemma_fold_concat(a, b.drop_last());
        assert((a + b).drop_last() =~= a + b.drop_last());
        assert((a + b).last() == b.last());
        assert(fold_digits(a + b) == fold_digits(a + b.drop_last()) * 10 + ((a + b).last()
            - 48));
        assert(fold_digits(a + b) == (fold_digits(a) * pow10(n) + fold_digits(b.drop_last()))
            * 10 + (b.last() - 48));
        assert((fold_digits(a) * pow10(n)) * 10 == fold_digits(a) * (pow10(n) * 10)) by (
        nonlinear_arith);
        assert(pow10(b.len()) == 10 * pow10(n));
        assert(fold_digits(b) == fold_digits(b.drop_last()) * 10 + (b.last() - 48));
    }
}

/// Stripping, removal, counting and folding on a one-byte string.
pub proof fn lemma_singletons(b: u8)
    ensures
        strip_commas(seq![b]) == if b == 44 {
            Seq::<u8>::empty()
        } else {
            seq![b]
        },
        remove_dots(seq![b]) == if b == 46 {
            Seq::<u8>::empty()
        } else {
            seq![b]
        },
        dot_count(seq![b]) == if b == 46 {
            1int
        } else {
            0int
        },
        fold_digits(seq![b]) == b - 48,
{
    assert(seq![b].drop_last() =~= Seq::<u8>::empty());
    assert(seq![b].last() == b);
    assert(strip_commas(Seq::<u8>::empty()) == Seq::<u8>::empty());
    assert(remove_dots(Seq::<u8>::empty()) == Seq::<u8>::empty());
    assert(dot_count(Seq::<u8>::empty()) == 0);
    assert(fold_digits(Seq::<u8>::empty()) == 0);
    if b != 44 {
        assert(strip_commas(seq![b]) == strip_commas(seq![b].drop_last()).push(b));
        assert(Seq::<u8>::empty().push(b) =~= seq![b]);
    }
    if b != 46 {
        assert(remove_dots(seq![b]) == remove_dots(seq![b].drop_last()).push(b));
        assert(Seq::<u8>::empty().push(b) =~= seq![b]);
    }
}

/// A digit string folds to a non-negative number.
pub proof fn lemma_fold_nonneg(t: Seq<u8>)
    requires
        all_digits(t),
    ensures
        fold_digits(t) >= 0,
    decreases t.len(),
{
    if t.len() > 0 {
        assert(all_digits(t.drop_last())) by {
            assert(forall|i: int| 0 <= i < t.len() - 1 ==> t.drop_last()[i] == t[i]);
        }
        lemma_fold_nonneg(t.drop_last());
    }
}

/// Comma stripping distributes over concatenation.
pub proof fn lemma_strip_concat(a: Seq<u8>, b: Seq<u8>)
    ensures
        strip_commas(a + b) == strip_commas(a) + strip_commas(b),
    decreases b.len(),
{
    if b.len() == 0 {
        assert(a + b =~= a);
        assert(strip_commas(a) + strip_commas(b) =~= strip_commas(a));
    } else {
        lemma_strip_concat(a, b.drop_last());
        assert((a + b).drop_last() =~= a + b.drop_last());
        if b.last() == 44 {
            assert(strip_commas(b) == strip_commas(b.drop_last()));
        } else {
            assert(strip_commas(b) == strip_commas(b.drop_last()).push(b.last()));
            assert(strip_commas(a) + strip_commas(b.drop_last()).push(b.last()) =~= (
            strip_commas(a) + strip_commas(b.drop_last())).push(b.last()));
        }
    }
}

/// Dot removal distributes over concatenation.
pub proof fn lemma_remove_dots_concat(a: Seq<u8>, b: Seq<u8>)
    ensures
        remove_dots(a + b) == remove_dots(a) + remove_dots(b),
    decreases b.len(),
{
    if b.len() == 0 {
        assert(a + b =~= a);
        assert(remove_dots(a) + remove_dots(b) =~= remove_dots(a));
    } else {
        lemma_remove_dots_concat(a, b.drop_last());
        assert((a + b).drop_last() =~= a + b.drop_last());
        if b.last() == 46 {
            assert(remove_dots(b) == remove_dots(b.drop_last()));
        } else {
            assert(remove_dots(b) == remove_dots(b.drop_last()).push(b.last()));
            assert(remove_dots(a) + remove_dots(b.drop_last()).push(b.last()) =~= (remove_dots(
                a,
            ) + remove_dots(b.drop_last())).push(b.last()));
        }
    }
}

/// Dot counting distributes over concatenation.
pub proof fn lemma_dot_count_concat(a: Seq<u8>, b: Seq<u8>)
    ensures
        dot_count(a + b) == dot_count(a) + dot_count(b),
    decreases b.len(),
{
    if b.len() == 0 {
        assert(a + b =~= a);
    } else {
        lemma_dot_count_concat(a, b.drop_last());
        assert((a + b).drop_last() =~= a + b.drop_last());
    }
}

/// Dot counts are never negative, and zero exactly on dot-free strings.
pub proof fn lemma_dot_count_nonneg(t: Seq<u8>)
    ensures
        dot_count(t) >= 0,
        dot_count(t) == 0 <==> (forall|i: int| 0 <= i < t.len() ==> t[i] != 46),
    decreases t.len(),
{
    if t.len() > 0 {
        lemma_dot_count_nonneg(t.drop_last());
        assert(forall|i: int| 0 <= i < t.len() - 1 ==> t.drop_last()[i] == t[i]);
        if dot_count(t) == 0 {
            assert(forall|i: int| 0 <= i < t.len() ==> t[i] != 46) by {
                assert(forall|i: int| 0 <= i < t.len() - 1 ==> t[i] == t.drop_last()[i]);
                assert(t[t.len() - 1] == t.last());
            }
        }
    }
}

/// Stripping and removal only shorten a string, and leave only digits when
/// the string was a numeric run.
pub proof fn lemma_numlike_run_digits(r: Seq<u8>)
    requires
        forall|i: int| 0 <= i < r.len() ==> is_numlike_byte(r[i]),
    ensures
        all_digits(remove_dots(strip_commas(r))),
        strip_commas(r).len() <= r.len(),
        remove_dots(strip_commas(r)).len() <= strip_commas(r).len(),
        scale_of(strip_commas(r)) >= 0,
        scale_of(strip_commas(r)) <= strip_commas(r).len(),
        forall|i: int|
            0 <= i < strip_commas(r).len() ==> is_numlike_byte(strip_commas(r)[i])
                && strip_commas(r)[i] != 44,
    decreases r.len(),
{
    lemma_scale_bounds(strip_commas(r));
    if r.len() == 0 {
    } else {
        assert(forall|i: int| 0 <= i < r.len() - 1 ==> r.drop_last()[i] == r[i]);
        lemma_numlike_run_digits(r.drop_last());
        let t = strip_commas(r);
        let tp = strip_commas(r.drop_last());
        assert(r.last() == r[r.len() - 1]);
        if r.last() == 44 {
            assert(t == tp);
        } else {
            assert(t == tp.push(r.last()));
            let d = remove_dots(t);
            let dp = remove_dots(tp);
            if r.last() == 46 {
                assert(t.drop_last() =~= tp);
                assert(d == dp);
            } else {
                assert(t.drop_last() =~= tp);
                assert(d == dp.push(r.last()));
                assert(is_digit_byte(r.last()));
                assert(all_digits(d)) by {
                    assert(forall|i: int| 0 <= i < dp.len() ==> d[i] == dp[i]);
                    assert(d[d.len() - 1] == r.last());
                }
            }
        }
    }
}

/// `scale_of` stays within the length of its argument.
pub proof fn lemma_scale_bounds(t: Seq<u8>)
    ensures
        0 <= scale_of(t) <= t.len(),
    decreases t.len(),
{
    if t.len() > 0 {
        lemma_scale_bounds(t.drop_last());
    }
}

/// The numeric run at `pos` read as an unsigned 64-bit integer: commas are
/// stripped, and the remaining text must be one or more digits whose value
/// fits. The position after the run is returned with the value.
pub open spec fn spec_parse_u64(s: Seq<u8>, pos: int) -> Result<(u64, int), ParseError> {
    let end = numlike_end(s, pos);
    let t = strip_commas(s.subrange(pos, end));
    if t.len() == 0 || !all_digits(t) || fold_digits(t) > u64::MAX as int {
        Err(ParseError::MalformedNumber)
    } else {
        Ok((fold_digits(t) as u64, end))
    }
}

/// The numeric run at `pos` read as an exact decimal: commas are stripped,
/// at most one `.` may remain, at least one digit is required, and the digit
/// string with the point removed must fit in the mantissa.
pub open spec fn spec_parse_decimal(s: Seq<u8>, pos: int) -> Result<(Decimal, int), ParseError> {
    let end = numlike_end(s, pos);
    let t = strip_commas(s.subrange(pos, end));
    let digits = remove_dots(t);
    if dot_count(t) > 1 || digits.len() == 0 || fold_digits(digits) > u64::MAX as int || scale_of(
        t,
    ) > usize::MAX as int {
        Err(ParseError::MalformedNumber)
    } else {
        Ok((Decimal { mantissa: fold_digits(digits) as u64, scale: scale_of(t) as usize }, end))
    }
}

/// Reads the numeric run at `pos` as an unsigned 64-bit integer.
#[verifier::loop_isolation(false)]
pub fn parse_num(input: &[u8], pos: usize) -> (r: Result<(u64, usize), ParseError>)
    requires
        pos <= input@.len(),
    ensures
        (match r {
            Ok((v, p)) => spec_parse_u64(input@, pos as int) == Ok::<_, ParseError>(
                (v, p as int),
            ) && pos <= p <= input@.len(),
            Err(e) => spec_parse_u64(input@, pos as int) == Err::<(u64, int), _>(e),
        }),
{
    let ghost s = input@;
    let end = scan_numlike(input, pos);
    proof {
        crate::parser::lex::lemma_scan_while(s, pos as int, |b: u8| is_numlike_byte(b));
    }
    let ghost full = s.subrange(pos as int, end as int);
    let ghost t = strip_commas(full);
    let mut val: u64 = 0;
    let mut seen = false;
    let mut i = pos;
    while i < end
        invariant
            pos <= i <= end,
            ({
                let tq = strip_commas(s.subrange(pos as int, i as int));
                &&& all_digits(tq)
                &&& val == fold_digits(tq)
                &&& seen == (tq.len() > 0)
            }),
        decreases end - i,
    {
        let b = input[i];
        let ghost pre = s.subrange(pos as int, i as int);
        let ghost cur = s.subrange(pos as int, i + 1);
        proof {
            assert(cur =~= pre + seq![s[i as int]]);
            lemma_strip_concat(pre, seq![s[i as int]]);
            lemma_singletons(s[i as int]);
            assert(is_numlike_byte(s[i as int]));
        }
        if b == 44 {
            proof {
                assert(strip_commas(pre) + Seq::<u8>::empty() =~= strip_commas(pre));
                assert(strip_commas(cur) =~= strip_commas(pre));
            }
        } else if b == 46 {
            // A dot makes the run no integer: the stripped text has a
            // non-digit byte, so the whole run is malformed.
            proof {
                assert(strip_commas(pre) + seq![s[i as int]] =~= strip_commas(pre).push(
                    s[i as int],
                ));
                assert(strip_commas(cur) == strip_commas(pre).push(s[i as int]));
                assert(full =~= cur + s.subrange(i + 1, end as int));
                lemma_strip_concat(cur, s.subrange(i + 1, end as int));
                let k = strip_commas(cur).len() - 1;
                assert(t[k] == 46);
                assert(!all_digits(t));
            }
            return Err(ParseError::MalformedNumber);
        } else {
            let d = b - 48;
            proof {
                assert(strip_commas(pre) + seq![s[i as int]] =~= strip_commas(pre).push(
                    s[i as int],
                ));
                assert(strip_commas(cur) == strip_commas(pre).push(s[i as int]));
                assert(strip_commas(cur).drop_last() =~= strip_commas(pre));
            }
            if val > (u64::MAX - (d as u64)) / 10 {
                // The digits so far already exceed the target type; more
                // digits only grow the value.
                proof {
                    let tc = strip_commas(cur);
                    assert(fold_digits(tc) == val * 10 + d);
                    assert(val * 10 + d > u64::MAX as int) by {
                        assert(val >= (u64::MAX - (d as u64)) / 10 + 1);
                        assert((u64::MAX as int - d) == ((u64::MAX - (d as u64)) / 10) as int * 10
                            + ((u64::MAX - (d as u64)) % 10) as int);
                    }
                    assert(full =~= cur + s.subrange(i + 1, end as int));
                    lemma_strip_concat(cur, s.subrange(i + 1, end as int));
                    let rest = strip_commas(s.subrange(i + 1, end as int));
                    lemma_fold_concat(tc, rest);
                    if all_digits(t) {
                        assert(all_digits(rest)) by {
                            assert(forall|k: int|
                                0 <= k < rest.len() ==> rest[k] == t[tc.len() + k]);
                        }
                        lemma_fold_nonneg(rest);
                        lemma_pow10_pos(rest.len());
                        assert(fold_digits(t) >= fold_digits(tc)) by {
                            assert(fold_digits(t) == fold_digits(tc) * pow10(rest.len())
                                + fold_digits(rest));
                            assert(fold_digits(tc) * pow10(rest.len()) >= fold_digits(tc) * 1) by (
                            nonlinear_arith)
                                requires
                                    pow10(rest.len()) >= 1,
                                    fold_digits(tc) >= 0,
                            ;
                        }
                    }
                }
                return Err(ParseError::MalformedNumber);
            }
            proof {
                let tc = strip_commas(cur);
                assert(all_digits(tc)) by {
                    assert(forall|k: int|
                        0 <= k < tc.len() - 1 ==> tc[k] == strip_commas(pre)[k]);
                    assert(tc[tc.len() - 1] == s[i as int]);
                    assert(is_digit_byte(s[i as int]));
                }
                assert(fold_digits(tc) == val * 10 + d);
                assert(val * 10 + d <= u64::MAX as int) by {
                    assert(val <= (u64::MAX - (d as u64)) / 10);
                    assert((u64::MAX as int - d) == ((u64::MAX - (d as u64)) / 10) as int * 10
                        + ((u64::MAX - (d as u64)) % 10) as int);
                }
            }
            val = val * 10 + (d as u64);
            seen = true;
        }
        i = i + 1;
    }
    if !seen {
        return Err(ParseError::MalformedNumber);
    }
    Ok((val, end))
}

/// The numeric run at `pos` read as `u32`: as [`spec_parse_u64`], further
/// requiring the value to fit in 32 bits.
pub open spec fn spec_parse_u32(s: Seq<u8>, pos: int) -> Result<(u32, int), ParseError> {
    match spec_parse_u64(s, pos) {
        Ok((v, p)) => if v <= u32::MAX as u64 {
            Ok((v as u32, p))
        } else {
            Err(ParseError::MalformedNumber)
        },
        Err(e) => Err(e),
    }
}

/// The numeric run at `pos` read as `u16`.
pub open spec fn spec_parse_u16(s: Seq<u8>, pos: int) -> Result<(u16, int), ParseError> {
    match spec_parse_u64(s, pos) {
        Ok((v, p)) => if v <= u16::MAX as u64 {
            Ok((v as u16, p))
        } else {
            Err(ParseError::MalformedNumber)
        },
        Err(e) => Err(e),
    }
}

/// The numeric run at `pos` read as `u8`.
pub open spec fn spec_parse_u8(s: Seq<u8>, pos: int) -> Result<(u8, int), ParseError> {
    match spec_parse_u64(s, pos) {
        Ok((v, p)) => if v <= u8::MAX as u64 {
            Ok((v as u8, p))
        } else {
            Err(ParseError::MalformedNumber)
        },
        Err(e) => Err(e),
    }
}

/// Reads the numeric run at `pos` as `u32`.
pub fn parse_num_u32(input: &[u8], pos: usize) -> (r: Result<(u32, usize), ParseError>)
    requires
        pos <= input@.len(),
    ensures
        (match r {
            Ok((v, p)) => spec_parse_u32(input@, pos as int) == Ok::<_, ParseError>(
                (v, p as int),
            ) && pos <= p <= input@.len(),
            Err(e) => spec_parse_u32(input@, pos as int) == Err::<(u32, int), _>(e),
        }),
{
    match parse_num(input, pos) {
        Ok((v, p)) => if v <= u32::MAX as u64 {
            Ok((v as u32, p))
        } else {
            Err(ParseError::MalformedNumber)
        },
        Err(e) => Err(e),
    }
}

/// Reads the numeric run at `pos` as `u16`.
pub fn parse_num_u16(input: &[u8], pos: usize) -> (r: Result<(u16, usize), ParseError>)
    requires
        pos <= input@.len(),
    ensures
        (match r {
            Ok((v, p)) => spec_parse_u16(input@, pos as int) == Ok::<_, ParseError>(
                (v, p as int),
            ) && pos <= p <= input@.len(),
            Err(e) => spec_parse_u16(input@, pos as int) == Err::<(u16, int), _>(e),
        }),
{
    match parse_num(input, pos) {
        Ok((v, p)) => if v <= u16::MAX as u64 {
            Ok((v as u16, p))
        } else {
            Err(ParseError::MalformedNumber)
        },
        Err(e) => Err(e),
    }
}

/// Reads the numeric run at `pos` as `u8`.
pub fn parse_num_u8(input: &[u8], pos: usize) -> (r: Result<(u8, usize), ParseError>)
    requires
        pos <= input@.len(),
    ensures
        (match r {
            Ok((v, p)) => spec_parse_u8(input@, pos as int) == Ok::<_, ParseError>(
                (v, p as int),
            ) && pos <= p <= input@.len(),
            Err(e) => spec_parse_u8(input@, pos as int) == Err::<(u8, int), _>(e),
        }),
{
    match parse_num(input, pos) {
        Ok((v, p)) => if v <= u8::MAX as u64 {
            Ok((v as u8, p))
        } else {
            Err(ParseError::MalformedNumber)
        },
        Err(e) => Err(e),
    }
}

/// Reads the numeric run at `pos` as an exact decimal.
#[verifier::loop_isolation(false)]
pub fn parse_num_decimal(input: &[u8], pos: usize) -> (r: Result<(Decimal, usize), ParseError>)
    requires
        pos <= input@.len(),
    ensures
        (match r {
            Ok((d, p)) => spec_parse_decimal(input@, pos as int) == Ok::<_, ParseError>(
                (d, p as int),
            ) && pos <= p <= input@.len(),
            Err(e) => spec_parse_decimal(input@, pos as int) == Err::<(Decimal, int), _>(e),
        }),
{
    let ghost s = input@;
    let end = scan_numlike(input, pos);
    proof {
        crate::parser::lex::lemma_scan_while(s, pos as int, |b: u8| is_numlike_byte(b));
    }
    let ghost full = s.subrange(pos as int, end as int);
    let ghost t = strip_commas(full);
    proof {
        lemma_numlike_run_digits(full);
    }
    let mut val: u64 = 0;
    let mut seen = false;
    let mut seen_dot = false;
    let mut frac: usize = 0;
    let mut i = pos;
    while i < end
        invariant
            pos <= i <= end,
            ({
                let tq = strip_commas(s.subrange(pos as int, i as int));
                let dq = remove_dots(tq);
                &&& all_digits(dq)
                &&& val == fold_digits(dq)
                &&& seen == (dq.len() > 0)
                &&& dot_count(tq) == (if seen_dot {
                    1int
                } else {
                    0int
                })
                &&& frac == scale_of(tq)
                &&& frac <= i - pos
            }),
        decreases end - i,
    {
        let b = input[i];
        let ghost pre = s.subrange(pos as int, i as int);
        let ghost cur = s.subrange(pos as int, i + 1);
        let ghost tp = strip_commas(pre);
        let ghost tc = strip_commas(cur);
        proof {
            assert(cur =~= pre + seq![s[i as int]]);
            lemma_strip_concat(pre, seq![s[i as int]]);
            lemma_singletons(s[i as int]);
            assert(is_numlike_byte(s[i as int]));
        }
        if b == 44 {
            proof {
                assert(tp + Seq::<u8>::empty() =~= tp);
                assert(tc =~= tp);
            }
        } else if b == 46 {
            proof {
                assert(tp + seq![s[i as int]] =~= tp.push(s[i as int]));
                assert(tc == tp.push(s[i as int]));
                assert(tc.drop_last() =~= tp);
                assert(tc.last() == 46);
                assert(dot_count(tc) == dot_count(tp) + 1);
                assert(remove_dots(tc) == remove_dots(tp));
                assert(scale_of(tc) == 0);
            }
            if seen_dot {
                // A second point in the run: the text is no decimal number.
                proof {
                    assert(full =~= cur + s.subrange(i + 1, end as int));
                    lemma_strip_concat(cur, s.subrange(i + 1, end as int));
                    lemma_dot_count_concat(tc, strip_commas(s.subrange(i + 1, end as int)));
                    lemma_dot_count_nonneg(strip_commas(s.subrange(i + 1, end as int)));
                    assert(dot_count(t) > 1);
                }
                return Err(ParseError::MalformedNumber);
            }
            seen_dot = true;
            frac = 0;
        } else {
            let d = b - 48;
            proof {
                assert(tp + seq![s[i as int]] =~= tp.push(s[i as int]));
                assert(tc == tp.push(s[i as int]));
                assert(tc.drop_last() =~= tp);
                assert(is_digit_byte(s[i as int]));
                assert(tc.last() == s[i as int]);
                assert(dot_count(tc) == dot_count(tp));
                assert(remove_dots(tc) == remove_dots(tp).push(s[i as int])) by {
                    assert(remove_dots(tc) == remove_dots(tc.drop_last()).push(tc.last()));
                }
                assert(remove_dots(tc).drop_last() =~= remove_dots(tp));
                assert(scale_of(tc) == (if dot_count(tp) > 0 {
                    scale_of(tp) + 1
                } else {
                    0int
                }));
            }
            if val > (u64::MAX - (d as u64)) / 10 {
                // The digit string already exceeds the mantissa type; more
                // digits only grow it.
                proof {
                    let dc = remove_dots(tc);
                    assert(fold_digits(dc) == val * 10 + d);
                    assert(val * 10 + d > u64::MAX as int) by {
                        assert(val >= (u64::MAX - (d as u64)) / 10 + 1);
                        assert((u64::MAX as int - d) == ((u64::MAX - (d as u64)) / 10) as int * 10
                            + ((u64::MAX - (d as u64)) % 10) as int);
                    }
                    assert(full =~= cur + s.subrange(i + 1, end as int));
                    lemma_strip_concat(cur, s.subrange(i + 1, end as int));
                    lemma_remove_dots_concat(tc, strip_commas(s.subrange(i + 1, end as int)));
                    let rest = remove_dots(strip_commas(s.subrange(i + 1, end as int)));
                    let digits = remove_dots(t);
                    assert(digits == dc + rest);
                    lemma_fold_concat(dc, rest);
                    assert(all_digits(rest)) by {
                        assert(forall|k: int|
                            0 <= k < rest.len() ==> rest[k] == digits[dc.len() + k]);
                    }
                    lemma_fold_nonneg(rest);
                    lemma_pow10_pos(rest.len());
                    assert(fold_digits(digits) >= fold_digits(dc)) by {
                        assert(fold_digits(digits) == fold_digits(dc) * pow10(rest.len())
                            + fold_digits(rest));
                        assert(fold_digits(dc) * pow10(rest.len()) >= fold_digits(dc) * 1) by (
                        nonlinear_arith)
                            requires
                                pow10(rest.len()) >= 1,
                                fold_digits(dc) >= 0,
                        ;
                    }
                    assert(fold_digits(remove_dots(t)) > u64::MAX as int);
                }
                return Err(ParseError::MalformedNumber);
            }
            proof {
                let dc = remove_dots(tc);
                assert(all_digits(dc)) by {
                    assert(forall|k: int|
                        0 <= k < dc.len() - 1 ==> dc[k] == remove_dots(tp)[k]);
                    assert(dc[dc.len() - 1] == s[i as int]);
                }
                assert(fold_digits(dc) == val * 10 + d);
                assert(val * 10 + d <= u64::MAX as int) by {
                    assert(val <= (u64::MAX - (d as u64)) / 10);
                    assert((u64::MAX as int - d) == ((u64::MAX - (d as u64)) / 10) as int * 10
                        + ((u64::MAX - (d as u64)) % 10) as int);
                }
            }
            val = val * 10 + (d as u64);
            seen = true;
            if seen_dot {
                frac = frac + 1;
            }
        }
        i = i + 1;
    }
    if !seen {
        return Err(ParseError::MalformedNumber);
    }
    proof {
        lemma_scale_bounds(t);
    }
    Ok((Decimal { mantissa: val, scale: frac }, end))
}

} // verus!

//! The extended summary: indentation-tagged rows and the tree builder that
//! reconstructs an ordered forest from them.
//!
//! A row's depth is the literal count of leading indentation bytes it had in
//! the source. The builder makes a single forward pass over the pre-lexed
//! rows with one row of lookahead; a peeked depth below the current depth
//! closes the node, and a peeked depth at or above it opens a child block.
//! A row immediately following another row at the *same* depth is therefore
//! nested as a child of the preceding row rather than becoming its sibling;
//! whether the producing tool means such rows as siblings is an open
//! question, and the behaviour is kept exactly as observed rather than
//! guessed at.
use vstd::prelude::*;
use crate::parser::lex::{
    scan_space, scan_token, space_end, spec_line_ending, take_line_ending, token_end, ParseError,
};
use crate::parser::num::{parse_num_decimal, parse_num_u32, spec_parse_decimal, spec_parse_u32,
    Decimal};
use crate::parser::summary::copy_range;

verus! {

/// One extended-summary row: cost centre, module, sequence number, entry
/// count, and the four percentage columns.
#[derive(Clone, Debug, PartialEq)]
pub struct ExtendedSummaryLine {
    pub cost_centre: Vec<u8>,
    pub module: Vec<u8>,
    pub no: u32,
    pub entries: u32,
    pub individual_time_perc: Decimal,
    pub individual_alloc_perc: Decimal,
    pub inherited_time_perc: Decimal,
    pub inherited_alloc_perc: Decimal,
}

/// The mathematical model of an [`ExtendedSummaryLine`].
pub ghost struct ExtendedSummaryLineV {
    pub cost_centre: Seq<u8>,
    pub module: Seq<u8>,
    pub no: u32,
    pub entries: u32,
    pub individual_time_perc: Decimal,
    pub individual_alloc_perc: Decimal,
    pub inherited_time_perc: Decimal,
    pub inherited_alloc_perc: Decimal,
}

impl View for ExtendedSummaryLine {
    type V = ExtendedSummaryLineV;

    open spec fn view(&self) -> ExtendedSummaryLineV {
        ExtendedSummaryLineV {
            cost_centre: self.cost_centre@,
            module: self.module@,
            no: self.no,
            entries: self.entries,
            individual_time_perc: self.individual_time_perc,
            individual_alloc_perc: self.individual_alloc_perc,
            inherited_time_perc: self.inherited_time_perc,
            inherited_alloc_perc: self.inherited_alloc_perc,
        }
    }
}

impl ExtendedSummaryLine {
    /// A fresh copy with the same field values.
    pub fn duplicate(&self) -> (r: ExtendedSummaryLine)
        ensures
            r@ == self@,
    {
        ExtendedSummaryLine {
            cost_centre: clone_bytes(&self.cost_centre),
            module: clone_bytes(&self.module),
            no: self.no,
            entries: self.entries,
            individual_time_perc: self.individual_time_perc,
            individual_alloc_perc: self.individual_alloc_perc,
            inherited_time_perc: self.inherited_time_perc,
            inherited_alloc_perc: self.inherited_alloc_perc,
        }
    }
}

/// Copies a byte vector.
pub fn clone_bytes(v: &Vec<u8>) -> (r: Vec<u8>)
    ensures
        r@ == v@,
{
    let mut t: Vec<u8> = Vec::new();
    let mut k: usize = 0;
    while k < v.len()
        invariant
            0 <= k <= v@.len(),
            t@ == v@.subrange(0, k as int),
        decreases v@.len() - k,
    {
        t.push(v[k]);
        proof {
            assert(t@ == v@.subrange(0, k + 1));
        }
        k = k + 1;
    }
    proof {
        assert(v@.subrange(0, v@.len() as int) =~= v@);
    }
    t
}

/// An extended-summary row together with its indentation depth.
#[derive(Clone, Debug, PartialEq)]
pub struct DepthRow {
    pub depth: usize,
    pub line: ExtendedSummaryLine,
}

/// The mathematical model of a [`DepthRow`].
pub ghost struct DepthRowV {
    pub depth: nat,
    pub line: ExtendedSummaryLineV,
}

impl View for DepthRow {
    type V = DepthRowV;

    open spec fn view(&self) -> DepthRowV {
        DepthRowV { depth: self.depth as nat, line: self.line@ }
    }
}

/// One extended-summary row starting at `pos`: the leading indentation run
/// (its length is the depth), the cost-centre and module tokens, the
/// sequence number and entry count, then the four percentages, then the
/// line terminator.
pub open spec fn spec_parse_ext_row(s: Seq<u8>, pos: int) -> Result<(DepthRowV, int), ParseError> {
    let i = space_end(s, pos);
    let a = token_end(s, i);
    if a >= s.len() {
        Err(ParseError::MalformedSection)
    } else {
        let b = space_end(s, a);
        let c = token_end(s, b);
        let d = space_end(s, c);
        match spec_parse_u32(s, d) {
            Err(e) => Err(e),
            Ok((no, e1)) => match spec_parse_u32(s, space_end(s, e1)) {
                Err(e) => Err(e),
                Ok((entries, e2)) => match spec_parse_decimal(s, space_end(s, e2)) {
                    Err(e) => Err(e),
                    Ok((it, e3)) => match spec_parse_decimal(s, space_end(s, e3)) {
                        Err(e) => Err(e),
                        Ok((ia, e4)) => match spec_parse_decimal(s, space_end(s, e4)) {
                            Err(e) => Err(e),
                            Ok((ht, e5)) => match spec_parse_decimal(s, space_end(s, e5)) {
                                Err(e) => Err(e),
                                Ok((ha, e6)) => match spec_line_ending(s, e6) {
                                    Some(p) => Ok(
                                        (
                                            DepthRowV {
                                                depth: (i - pos) as nat,
                                                line: ExtendedSummaryLineV {
                                                    cost_centre: s.subrange(i, a),
                                                    module: s.subrange(b, c),
                                                    no,
                                                    entries,
                                                    individual_time_perc: it,
                                                    individual_alloc_perc: ia,
                                                    inherited_time_perc: ht,
                                                    inherited_alloc_perc: ha,
                                                },
                                            },
                                            p,
                                        ),
                                    ),
                                    None => Err(ParseError::MalformedSection),
                                },
                            },
                        },
                    },
                },
            },
        }
    }
}

/// A successfully parsed row ends strictly after it began and inside the
/// buffer.
pub proof fn lemma_ext_row_advances(s: Seq<u8>, pos: int)
    requires
        0 <= pos <= s.len(),
    ensures
        (match spec_parse_ext_row(s, pos) {
            Ok((row, p)) => pos < p <= s.len(),
            Err(e) => true,
        }),
{
    let sp = |b: u8| crate::parser::lex::is_space_byte(b);
    let tk = |b: u8| !crate::parser::lex::is_space_byte(b);
    let nl = |b: u8| crate::parser::lex::is_numlike_byte(b);
    crate::parser::lex::lemma_scan_while(s, pos, sp);
    let i = space_end(s, pos);
    crate::parser::lex::lemma_scan_while(s, i, tk);
    let a = token_end(s, i);
    if a < s.len() {
        crate::parser::lex::lemma_scan_while(s, a, sp);
        let b = space_end(s, a);
        crate::parser::lex::lemma_scan_while(s, b, tk);
        let c = token_end(s, b);
        crate::parser::lex::lemma_scan_while(s, c, sp);
        let d = space_end(s, c);
        crate::parser::lex::lemma_scan_while(s, d, nl);
        if let Ok((_, e1)) = spec_parse_u32(s, d) {
            crate::parser::lex::lemma_scan_while(s, e1, sp);
            crate::parser::lex::lemma_scan_while(s, space_end(s, e1), nl);
            if let Ok((_, e2)) = spec_parse_u32(s, space_end(s, e1)) {
                crate::parser::lex::lemma_scan_while(s, e2, sp);
                crate::parser::lex::lemma_scan_while(s, space_end(s, e2), nl);
                if let Ok((_, e3)) = spec_parse_decimal(s, space_end(s, e2)) {
                    crate::parser::lex::lemma_scan_while(s, e3, sp);
                    crate::parser::lex::lemma_scan_while(s, space_end(s, e3), nl);
                    if let Ok((_, e4)) = spec_parse_decimal(s, space_end(s, e3)) {
                        crate::parser::lex::lemma_scan_while(s, e4, sp);
                        crate::parser::lex::lemma_scan_while(s, space_end(s, e4), nl);
                        if let Ok((_, e5)) = spec_parse_decimal(s, space_end(s, e4)) {
                            crate::parser::lex::lemma_scan_while(s, e5, sp);
                            crate::parser::lex::lemma_scan_while(s, space_end(s, e5), nl);
                        }
                    }
                }
            }
        }
    }
}

/// Parses one extended-summary row starting at `pos`.
pub fn parse_extended_summary_line(input: &[u8], pos: usize) -> (r: Result<
    (DepthRow, usize),
    ParseError,
>)
    requires
        pos <= input@.len(),
    ensures
        (match r {
            Ok((row, p)) => spec_parse_ext_row(input@, pos as int) == Ok::<_, ParseError>(
                (row@, p as int),
            ) && pos < p <= input@.len(),
            Err(e) => spec_parse_ext_row(input@, pos as int) == Err::<(DepthRowV, int), _>(e),
        }),
{
    proof {
        lemma_ext_row_advances(input@, pos as int);
    }
    let i = scan_space(input, pos);
    let a = scan_token(input, i);
    if a >= input.len() {
        return Err(ParseError::MalformedSection);
    }
    let b = scan_space(input, a);
    let c = scan_token(input, b);
    let d = scan_space(input, c);
    let (no, e1) = match parse_num_u32(input, d) {
        Ok(v) => v,
        Err(e) => { return Err(e) },
    };
    let s1 = scan_space(input, e1);
    let (entries, e2) = match parse_num_u32(input, s1) {
        Ok(v) => v,
        Err(e) => { return Err(e) },
    };
    let s2 = scan_space(input, e2);
    let (it, e3) = match parse_num_decimal(input, s2) {
        Ok(v) => v,
        Err(e) => { return Err(e) },
    };
    let s3 = scan_space(input, e3);
    let (ia, e4) = match parse_num_decimal(input, s3) {
        Ok(v) => v,
        Err(e) => { return Err(e) },
    };
    let s4 = scan_space(input, e4);
    let (ht, e5) = match parse_num_decimal(input, s4) {
        Ok(v) => v,
        Err(e) => { return Err(e) },
    };
    let s5 = scan_space(input, e5);
    let (ha, e6) = match parse_num_decimal(input, s5) {
        Ok(v) => v,
        Err(e) => { return Err(e) },
    };
    match take_line_ending(input, e6) {
        Some(p) => {
            let cost_centre = copy_range(input, i, a);
            let module = copy_range(input, b, c);
            Ok(
                (
                    DepthRow {
                        depth: i - pos,
                        line: ExtendedSummaryLine {
                            cost_centre,
                            module,
                            no,
                            entries,
                            individual_time_perc: it,
                            individual_alloc_perc: ia,
                            inherited_time_perc: ht,
                            inherited_alloc_perc: ha,
                        },
                    },
                    p,
                ),
            )
        },
        None => Err(ParseError::MalformedSection),
    }
}

/// The maximal run of extended-summary rows starting at `pos`, with the
/// position after the last row. The first row that fails to parse ends the
/// run; lexing rows never fails by itself.
pub open spec fn spec_lex_rows(s: Seq<u8>, pos: int) -> (Seq<DepthRowV>, int)
    decreases s.len() - pos,
    when 0 <= pos <= s.len()
    via spec_lex_rows_dec
{
    match spec_parse_ext_row(s, pos) {
        Err(_) => (Seq::empty(), pos),
        Ok((row, p)) => {
            let (rest, q) = spec_lex_rows(s, p);
            (seq![row] + rest, q)
        },
    }
}

#[via_fn]
proof fn spec_lex_rows_dec(s: Seq<u8>, pos: int) {
    lemma_ext_row_advances(s, pos);
}

/// What [`spec_lex_rows`] returns: a position within bounds.
pub proof fn lemma_lex_rows_bounds(s: Seq<u8>, pos: int)
    requires
        0 <= pos <= s.len(),
    ensures
        pos <= spec_lex_rows(s, pos).1 <= s.len(),
    decreases s.len() - pos,
{
    lemma_ext_row_advances(s, pos);
    match spec_parse_ext_row(s, pos) {
        Err(_) => {
        },
        Ok((row, p)) => {
            lemma_lex_rows_bounds(s, p);
        },
    }
}

/// Joins an already-lexed prefix of rows onto the outcome for the rest.
pub open spec fn prepend_lexed(pre: Seq<DepthRowV>, r: (Seq<DepthRowV>, int)) -> (
    Seq<DepthRowV>,
    int,
) {
    (pre + r.0, r.1)
}

/// Lexes the maximal run of extended-summary rows starting at `pos`.
#[verifier::loop_isolation(false)]
pub fn lex_rows(input: &[u8], pos: usize) -> (r: (Vec<DepthRow>, usize))
    requires
        pos <= input@.len(),
    ensures
        (spec_lex_rows(input@, pos as int) == (
            r.0@.map_values(|x: DepthRow| x@),
            r.1 as int,
        )),
        pos <= r.1 <= input@.len(),
{
    let ghost s = input@;
    let mut rows: Vec<DepthRow> = Vec::new();
    let mut i = pos;
    loop
        invariant
            pos <= i <= input@.len(),
            spec_lex_rows(s, pos as int) == prepend_lexed(
                rows@.map_values(|x: DepthRow| x@),
                spec_lex_rows(s, i as int),
            ),
        decreases input@.len() - i,
    {
        match parse_extended_summary_line(input, i) {
            Err(_) => {
                proof {
                    assert(spec_lex_rows(s, i as int) == (Seq::<DepthRowV>::empty(), i as int));
                    assert(rows@.map_values(|x: DepthRow| x@) + Seq::<DepthRowV>::empty() =~= rows@
                        .map_values(|x: DepthRow| x@));
                }
                return (rows, i);
            },
            Ok((row, p)) => {
                proof {
                    let pre = rows@.map_values(|x: DepthRow| x@);
                    assert(spec_lex_rows(s, i as int) == prepend_lexed(
                        seq![row@],
                        spec_lex_rows(s, p as int),
                    ));
                    assert(rows@.push(row).map_values(|x: DepthRow| x@) =~= pre + seq![row@]);
                    assert(forall|rest: Seq<DepthRowV>|
                        (pre + seq![row@]) + rest =~= pre + (seq![row@] + rest));
                }
                rows.push(row);
                i = p;
            },
        }
    }
}

/// An ordered tree: a node value, the literal indentation depth the node's
/// row had, and the node's subtrees in source order. No reordering, sorting
/// or deduplication is ever performed.
#[derive(Debug, PartialEq)]
pub struct RoseTree<T> {
    pub depth: usize,
    pub value: T,
    pub sub_forest: Vec<RoseTree<T>>,
}

/// The mathematical model of a [`RoseTree`].
pub ghost struct RoseTreeV<V> {
    pub depth: nat,
    pub value: V,
    pub sub_forest: Seq<RoseTreeV<V>>,
}

/// The model of a tree: depth and value unchanged, subtrees modelled in
/// order.
pub open spec fn tree_view<T: View>(t: RoseTree<T>) -> RoseTreeV<T::V>
    decreases t,
{
    RoseTreeV { depth: t.depth as nat, value: t.value@, sub_forest: forest_view(t.sub_forest@) }
}

/// The model of a forest: each tree modelled in order.
pub open spec fn forest_view<T: View>(f: Seq<RoseTree<T>>) -> Seq<RoseTreeV<T::V>>
    decreases f,
{
    if f.len() == 0 {
        Seq::empty()
    } else {
        seq![tree_view(f[0])] + forest_view(f.drop_first())
    }
}

/// A forest's model has one entry per tree, in order.
pub proof fn lemma_forest_view<T: View>(f: Seq<RoseTree<T>>)
    ensures
        forest_view(f).len() == f.len(),
        forall|i: int| 0 <= i < f.len() ==> forest_view(f)[i] == tree_view(f[i]),
    decreases f,
{
    if f.len() > 0 {
        lemma_forest_view(f.drop_first());
        assert(forall|i: int| 0 <= i < f.len() - 1 ==> f.drop_first()[i] == f[i + 1]);
    }
}

impl<T: View> View for RoseTree<T> {
    type V = RoseTreeV<T::V>;

    open spec fn view(&self) -> RoseTreeV<T::V> {
        tree_view(*self)
    }
}

/// `k` if it lies strictly after `j` and at most at `n`, else `n`. The
/// builder's recursion steps through positions that a progress lemma shows
/// always lie in that range, so the clamp never changes a real position; it
/// only makes the recursion well-founded by construction.
pub open spec fn clamp_pos(k: int, j: int, n: int) -> int {
    if j < k && k <= n {
        k
    } else {
        n
    }
}

/// One node of the forest, built from `rows[i]` with recorded depth `cur`.
/// The next row's depth is peeked: exhausted input or a depth below `cur`
/// closes the node as a leaf; otherwise the peeked depth (equal depths
/// included) opens the node's child block.
pub open spec fn spec_build_node(rows: Seq<DepthRowV>, i: int, cur: nat) -> (
    RoseTreeV<ExtendedSummaryLineV>,
    int,
)
    decreases rows.len() - i, 0int
    when 0 <= i < rows.len()
{
    let row = rows[i];
    let j = i + 1;
    if j >= rows.len() || rows[j].depth < cur {
        (RoseTreeV { depth: cur, value: row.line, sub_forest: Seq::empty() }, j)
    } else {
        let d = rows[j].depth;
        let (kids, k) = spec_build_forest(rows, j, d);
        (RoseTreeV { depth: cur, value: row.line, sub_forest: kids }, k)
    }
}

/// A child block: nodes built at depth `d`, one after another, until the
/// row after a node shows a depth below `d` or the input is exhausted.
pub open spec fn spec_build_forest(rows: Seq<DepthRowV>, j: int, d: nat) -> (
    Seq<RoseTreeV<ExtendedSummaryLineV>>,
    int,
)
    decreases rows.len() - j, 1int
    when 0 <= j < rows.len()
{
    let (t, k0) = spec_build_node(rows, j, d);
    let k = clamp_pos(k0, j, rows.len() as int);
    if k < rows.len() && rows[k].depth >= d {
        let (rest, m) = spec_build_forest(rows, k, d);
        (seq![t] + rest, m)
    } else {
        (seq![t], k)
    }
}

/// Building a node consumes at least its own row and stays inside the rows.
pub proof fn lemma_build_node_bounds(rows: Seq<DepthRowV>, i: int, cur: nat)
    requires
        0 <= i < rows.len(),
    ensures
        i < spec_build_node(rows, i, cur).1 <= rows.len(),
    decreases rows.len() - i, 0int,
{
    let j = i + 1;
    if !(j >= rows.len() || rows[j].depth < cur) {
        lemma_build_forest_bounds(rows, j, rows[j].depth);
    }
}

/// Building a child block consumes at least one row and stays inside the
/// rows.
pub proof fn lemma_build_forest_bounds(rows: Seq<DepthRowV>, j: int, d: nat)
    requires
        0 <= j < rows.len(),
    ensures
        j < spec_build_forest(rows, j, d).1 <= rows.len(),
    decreases rows.len() - j, 1int,
{
    lemma_build_node_bounds(rows, j, d);
    let k0 = spec_build_node(rows, j, d).1;
    assert(clamp_pos(k0, j, rows.len() as int) == k0);
    if k0 < rows.len() && rows[k0].depth >= d {
        lemma_build_forest_bounds(rows, k0, d);
    }
}

/// The whole forest: roots built at depth zero, one after another, until the
/// rows are exhausted.
pub open spec fn spec_build_all(rows: Seq<DepthRowV>, i: int) -> Seq<
    RoseTreeV<ExtendedSummaryLineV>,
>
    decreases rows.len() - i,
    when i >= 0
{
    if i >= rows.len() {
        Seq::empty()
    } else {
        let (t, k0) = spec_build_node(rows, i, 0);
        let k = clamp_pos(k0, i, rows.len() as int);
        seq![t] + spec_build_all(rows, k)
    }
}

/// The model of a row list.
pub open spec fn rows_view(rows: Seq<DepthRow>) -> Seq<DepthRowV> {
    rows.map_values(|x: DepthRow| x@)
}

/// Builds one node of the forest from `rows[i]` with recorded depth
/// `current_depth`, returning the node and the index of the first row it
/// did not consume.
pub fn parse_node(rows: &Vec<DepthRow>, i: usize, current_depth: usize) -> (r: (
    RoseTree<ExtendedSummaryLine>,
    usize,
))
    requires
        i < rows@.len(),
    ensures
        spec_build_node(rows_view(rows@), i as int, current_depth as nat) == (
            tree_view(r.0),
            r.1 as int,
        ),
        i < r.1 <= rows@.len(),
    decreases rows@.len() - i, 0int,
{
    let ghost rv = rows_view(rows@);
    let n = rows.len();
    let value = rows[i].line.duplicate();
    let j = i + 1;
    if j >= n || rows[j].depth < current_depth {
        let t = RoseTree { depth: current_depth, value, sub_forest: Vec::new() };
        proof {
            assert(t.sub_forest@ =~= Seq::<RoseTree<ExtendedSummaryLine>>::empty());
            assert(forest_view(t.sub_forest@) =~= Seq::<RoseTreeV<ExtendedSummaryLineV>>::empty());
        }
        (t, j)
    } else {
        let d = rows[j].depth;
        let (kids, k) = build_children(rows, j, d);
        let t = RoseTree { depth: current_depth, value, sub_forest: kids };
        (t, k)
    }
}

/// Builds the run of child nodes at depth `d` starting at `rows[j]`,
/// returning the children in order and the index of the first row after the
/// block.
#[verifier::loop_isolation(false)]
pub fn build_children(rows: &Vec<DepthRow>, j: usize, d: usize) -> (r: (
    Vec<RoseTree<ExtendedSummaryLine>>,
    usize,
))
    requires
        j < rows@.len(),
    ensures
        spec_build_forest(rows_view(rows@), j as int, d as nat) == (
            forest_view(r.0@),
            r.1 as int,
        ),
        j < r.1 <= rows@.len(),
    decreases rows@.len() - j, 1int,
{
    let ghost rv = rows_view(rows@);
    proof {
        lemma_build_forest_bounds(rv, j as int, d as nat);
    }
    let mut kids: Vec<RoseTree<ExtendedSummaryLine>> = Vec::new();
    let mut k = j;
    loop
        invariant
            j <= k < rows@.len(),
            spec_build_forest(rv, j as int, d as nat).0 == forest_view(kids@)
                + spec_build_forest(rv, k as int, d as nat).0,
            spec_build_forest(rv, j as int, d as nat).1 == spec_build_forest(
                rv,
                k as int,
                d as nat,
            ).1,
            spec_build_forest(rv, k as int, d as nat).1 > j,
        decreases rows@.len() - k,
    {
        let (t, k2) = parse_node(rows, k, d);
        proof {
            lemma_build_node_bounds(rv, k as int, d as nat);
            assert(clamp_pos(k2 as int, k as int, rv.len() as int) == k2 as int);
            lemma_forest_view(kids@);
            lemma_forest_view(kids@.push(t));
            assert(forest_view(kids@.push(t)) =~= forest_view(kids@).push(tree_view(t)));
            assert(forall|rest: Seq<RoseTreeV<ExtendedSummaryLineV>>|
                (forest_view(kids@) + seq![tree_view(t)]) + rest =~= forest_view(kids@) + (
                seq![tree_view(t)] + rest));
            assert(forest_view(kids@).push(tree_view(t)) =~= forest_view(kids@) + seq![
                tree_view(t),
            ]);
        }
        kids.push(t);
        if k2 < rows.len() && rows[k2].depth >= d {
            k = k2;
        } else {
            proof {
                assert(spec_build_forest(rv, k as int, d as nat) == (
                    seq![tree_view(t)],
                    k2 as int,
                ));
                assert(forest_view(kids@) =~= forest_view(kids@.drop_last()) + seq![
                    tree_view(t),
                ]) by {
                    lemma_forest_view(kids@);
                    lemma_forest_view(kids@.drop_last());
                    assert(forall|n: int|
                        0 <= n < kids@.len() - 1 ==> kids@.drop_last()[n] == kids@[n]);
                }
            }
            return (kids, k2);
        }
    }
}

/// The extended summary: the ordered forest of cost-centre trees, one root
/// per top-level build.
#[derive(Debug, PartialEq)]
pub struct ExtendedSummary(pub Vec<RoseTree<ExtendedSummaryLine>>);

impl View for ExtendedSummary {
    type V = Seq<RoseTreeV<ExtendedSummaryLineV>>;

    open spec fn view(&self) -> Seq<RoseTreeV<ExtendedSummaryLineV>> {
        forest_view(self.0@)
    }
}

/// The extended-summary section starting at `pos`: the maximal run of rows
/// is lexed, at least one row is required, and the forest is built from the
/// rows. Input after the last row that parses is left unconsumed.
pub open spec fn spec_parse_extended_summary(s: Seq<u8>, pos: int) -> Result<
    (Seq<RoseTreeV<ExtendedSummaryLineV>>, int),
    ParseError,
> {
    let (rows, p) = spec_lex_rows(s, pos);
    if rows.len() == 0 {
        Err(ParseError::MalformedSection)
    } else {
        Ok((spec_build_all(rows, 0), p))
    }
}

/// Parses the extended-summary section starting at `pos`.
#[verifier::loop_isolation(false)]
pub fn parse_extended_summary(input: &[u8], pos: usize) -> (r: Result<
    (ExtendedSummary, usize),
    ParseError,
>)
    requires
        pos <= input@.len(),
    ensures
        (match r {
            Ok((f, p)) => spec_parse_extended_summary(input@, pos as int) == Ok::<_, ParseError>(
                (f@, p as int),
            ) && pos <= p <= input@.len(),
            Err(e) => spec_parse_extended_summary(input@, pos as int) == Err::<
                (Seq<RoseTreeV<ExtendedSummaryLineV>>, int),
                _,
            >(e),
        }),
{
    let (rows, p) = lex_rows(input, pos);
    if rows.len() == 0 {
        return Err(ParseError::MalformedSection);
    }
    let ghost rv = rows_view(rows@);
    let mut trees: Vec<RoseTree<ExtendedSummaryLine>> = Vec::new();
    let mut k: usize = 0;
    while k < rows.len()
        invariant
            0 <= k <= rows@.len(),
            spec_build_all(rv, 0) == forest_view(trees@) + spec_build_all(rv, k as int),
        decreases rows@.len() - k,
    {
        let (t, k2) = parse_node(&rows, k, 0);
        proof {
            lemma_build_node_bounds(rv, k as int, 0);
            assert(clamp_pos(k2 as int, k as int, rv.len() as int) == k2 as int);
            assert(spec_build_all(rv, k as int) == seq![tree_view(t)] + spec_build_all(
                rv,
                k2 as int,
            ));
            lemma_forest_view(trees@);
            lemma_forest_view(trees@.push(t));
            assert(forest_view(trees@.push(t)) =~= forest_view(trees@) + seq![tree_view(t)]);
            assert(forall|rest: Seq<RoseTreeV<ExtendedSummaryLineV>>|
                (forest_view(trees@) + seq![tree_view(t)]) + rest =~= forest_view(trees@) + (
                seq![tree_view(t)] + rest));
        }
        trees.push(t);
        k = k2;
    }
    proof {
        assert(spec_build_all(rv, k as int) =~= Seq::<RoseTreeV<ExtendedSummaryLineV>>::empty());
        assert(forest_view(trees@) + Seq::<RoseTreeV<ExtendedSummaryLineV>>::empty() =~= forest_view(
            trees@,
        ));
    }
    Ok((ExtendedSummary(trees), p))
}

} // verus!

//! The on-disk text format of the numeric matrix.
//!
//! A file is a header (`#?SIMPLE`, `NROWS=<n>`, `NCOLS=<n>`, `NCOMP=<1|3>`,
//! `FORMAT=ascii`), a blank separator line, then `NROWS` lines of
//! whitespace-separated numeric tokens, `NCOMP * NCOLS` per line. The parser
//! validates all of it and reports the offending line on failure; it never
//! yields a partial matrix. Values travel as validated numeric tokens (byte
//! strings); turning a token into a machine number is the caller's step.

use crate::ascii::{
    count_byte, dec_digits, find_byte_in, first_byte_idx, is_ascii_ws, lemma_count_byte_add,
    lemma_count_byte_zero, lemma_dec_digits_shape, lemma_dec_digits_val, numeric_token,
    split_lines, split_tokens, split_ws, spec_lines, usize_token, usize_token_val, views_match,
    copy_tail, is_numeric_token, parse_usize, push_bytes, render_usize, lemma_numeric_token_bytes,
    lemma_raw_lines_line, lemma_split_ws_token, raw_lines, strip_cr, CARRIAGE_RETURN, EQUALS,
    NEWLINE, TAB,
};
use crate::matrix::{Colour, Matrix};
use vstd::prelude::*;

verus! {

/// The header field a malformed line belongs to.
#[derive(Debug, Clone, Copy, PartialEq, Eq, Structural)]
pub enum HeaderField {
    /// The `NROWS=` line.
    Rows,
    /// The `NCOLS=` line.
    Cols,
    /// The `NCOMP=` line.
    Comp,
}

/// Errors of the matrix text format. Line numbers are zero-based indices
/// into the file's lines.
#[derive(Debug, Clone, Copy, PartialEq, Eq, Structural)]
pub enum MatrixTextError {
    /// A header line for `field` does not have the shape `NAME=value`.
    HeaderShape { field: HeaderField, line: usize },
    /// A header line for `field` carries a value that is not an unsigned
    /// number that fits the machine.
    HeaderValue { field: HeaderField, line: usize },
    /// The `NCOMP=` value differs from the component count this reader
    /// expects.
    WrongComponentCount { found: usize, expected: usize, line: usize },
    /// The header ended without an `NROWS=` line.
    MissingRowCount,
    /// The header ended without an `NCOLS=` line.
    MissingColumnCount,
    /// The number of data lines differs from the declared row count.
    RowCountMismatch { expected: usize, found: usize },
    /// A data line holds the wrong number of tokens.
    TokenCount { line: usize, found: usize },
    /// A data line holds a token that is not numeric.
    BadToken { line: usize },
}

/// The view of each byte vector in a sequence.
pub open spec fn seq_views(v: Seq<Vec<u8>>) -> Seq<Seq<u8>> {
    v.map_values(|x: Vec<u8>| x@)
}

/// [`views_match`] pins down [`seq_views`].
pub proof fn lemma_views_match_seq_views(v: Seq<Vec<u8>>, m: Seq<Seq<u8>>)
    requires
        views_match(v, m),
    ensures
        seq_views(v) == m,
{
    assert(seq_views(v) =~~= m);
}

/// The bytes of `#?SIMPLE`.
pub open spec fn kw_simple() -> Seq<u8> {
    seq![35u8, 63u8, 83u8, 73u8, 77u8, 80u8, 76u8, 69u8]
}

/// The bytes of `NROWS`.
pub open spec fn kw_nrows() -> Seq<u8> {
    seq![78u8, 82u8, 79u8, 87u8, 83u8]
}

/// The bytes of `NCOLS`.
pub open spec fn kw_ncols() -> Seq<u8> {
    seq![78u8, 67u8, 79u8, 76u8, 83u8]
}

/// The bytes of `NCOMP`.
pub open spec fn kw_ncomp() -> Seq<u8> {
    seq![78u8, 67u8, 79u8, 77u8, 80u8]
}

/// The bytes of `FORMAT=ascii`.
pub open spec fn kw_format() -> Seq<u8> {
    seq![70u8, 79u8, 82u8, 77u8, 65u8, 84u8, 61u8, 97u8, 115u8, 99u8, 105u8, 105u8]
}

/// A line that ends the header: empty, or opening with whitespace.
pub open spec fn is_blankish(l: Seq<u8>) -> bool {
    l.len() == 0 || is_ascii_ws(l[0])
}

/// Prefix test on byte sequences.
pub open spec fn starts_with(l: Seq<u8>, p: Seq<u8>) -> bool {
    l.len() >= p.len() && l.take(p.len() as int) == p
}

/// The value part of a `NAME=value` header line: everything after the first
/// `=`.
pub open spec fn header_value_seq(l: Seq<u8>) -> Seq<u8> {
    l.skip(first_byte_idx(l, EQUALS) + 1)
}

/// Outcome of scanning the header lines.
pub enum HeaderScan {
    /// A malformed header line.
    Fail(MatrixTextError),
    /// The header ended; data lines start at index `next`.
    Done { next: int, nrows: Option<int>, ncols: Option<int> },
}

/// Scans header lines from index `i` with the row/column counts read so
/// far, mirroring the reader: the first blank-ish line (or the end of the
/// file) ends the header; `NROWS=`/`NCOLS=` lines record their value, with
/// the last occurrence winning; an `NCOMP=` line must carry
/// `expected_ncomp`; any other line is ignored.
pub open spec fn scan_header(
    lines: Seq<Seq<u8>>,
    i: int,
    nrows: Option<int>,
    ncols: Option<int>,
    expected_ncomp: int,
) -> HeaderScan
    decreases lines.len() - i,
{
    if i < 0 || i >= lines.len() {
        HeaderScan::Done { next: lines.len() as int, nrows, ncols }
    } else {
        let l = lines[i];
        if is_blankish(l) {
            HeaderScan::Done { next: i + 1, nrows, ncols }
        } else if starts_with(l, kw_nrows()) {
            if count_byte(l, EQUALS) != 1 {
                HeaderScan::Fail(
                    MatrixTextError::HeaderShape { field: HeaderField::Rows, line: i as usize },
                )
            } else if !usize_token(header_value_seq(l)) {
                HeaderScan::Fail(
                    MatrixTextError::HeaderValue { field: HeaderField::Rows, line: i as usize },
                )
            } else {
                scan_header(
                    lines,
                    i + 1,
                    Some(usize_token_val(header_value_seq(l)) as int),
                    ncols,
                    expected_ncomp,
                )
            }
        } else if starts_with(l, kw_ncols()) {
            if count_byte(l, EQUALS) != 1 {
                HeaderScan::Fail(
                    MatrixTextError::HeaderShape { field: HeaderField::Cols, line: i as usize },
                )
            } else if !usize_token(header_value_seq(l)) {
                HeaderScan::Fail(
                    MatrixTextError::HeaderValue { field: HeaderField::Cols, line: i as usize },
                )
            } else {
                scan_header(
                    lines,
                    i + 1,
                    nrows,
                    Some(usize_token_val(header_value_seq(l)) as int),
                    expected_ncomp,
                )
            }
        } else if starts_with(l, kw_ncomp()) {
            if count_byte(l, EQUALS) != 1 {
                HeaderScan::Fail(
                    MatrixTextError::HeaderShape { field: HeaderField::Comp, line: i as usize },
                )
            } else if !usize_token(header_value_seq(l)) {
                HeaderScan::Fail(
                    MatrixTextError::HeaderValue { field: HeaderField::Comp, line: i as usize },
                )
            } else if usize_token_val(header_value_seq(l)) != expected_ncomp {
                HeaderScan::Fail(
                    MatrixTextError::WrongComponentCount {
                        found: usize_token_val(header_value_seq(l)) as usize,
                        expected: expected_ncomp as usize,
                        line: i as usize,
                    },
                )
            } else {
                scan_header(lines, i + 1, nrows, ncols, expected_ncomp)
            }
        } else {
            scan_header(lines, i + 1, nrows, ncols, expected_ncomp)
        }
    }
}

/// Scans the data lines: row `r` onward, each line tokenized, `width`
/// numeric tokens per line, accumulating the tokens row-major.
pub open spec fn scan_rows(
    lines: Seq<Seq<u8>>,
    first: int,
    r: int,
    nrows: int,
    width: int,
    acc: Seq<Seq<u8>>,
) -> Result<Seq<Seq<u8>>, MatrixTextError>
    decreases nrows - r,
{
    if r >= nrows {
        Ok(acc)
    } else {
        let toks = split_ws(lines[first + r]);
        if toks.len() != width {
            Err(
                MatrixTextError::TokenCount {
                    line: (first + r) as usize,
                    found: toks.len() as usize,
                },
            )
        } else if exists|j: int| 0 <= j < toks.len() && !numeric_token(#[trigger] toks[j]) {
            Err(MatrixTextError::BadToken { line: (first + r) as usize })
        } else {
            scan_rows(lines, first, r + 1, nrows, width, acc + toks)
        }
    }
}

/// The whole parse, over the content bytes: header, then exactly `NROWS`
/// data lines of `NCOLS * expected_ncomp` numeric tokens each. On success:
/// rows, columns, and the flat row-major token sequence.
pub open spec fn parse_model(content: Seq<u8>, expected_ncomp: int) -> Result<
    (int, int, Seq<Seq<u8>>),
    MatrixTextError,
> {
    let lines = spec_lines(content);
    match scan_header(lines, 0, None, None, expected_ncomp) {
        HeaderScan::Fail(e) => Err(e),
        HeaderScan::Done { next, nrows, ncols } => {
            match (nrows, ncols) {
                (None, _) => Err(MatrixTextError::MissingRowCount),
                (Some(_), None) => Err(MatrixTextError::MissingColumnCount),
                (Some(nr), Some(nc)) => {
                    if lines.len() - next != nr {
                        Err(
                            MatrixTextError::RowCountMismatch {
                                expected: nr as usize,
                                found: (lines.len() - next) as usize,
                            },
                        )
                    } else {
                        match scan_rows(
                            lines,
                            next,
                            0,
                            nr,
                            nc * expected_ncomp,
                            Seq::empty(),
                        ) {
                            Ok(toks) => Ok((nr, nc, toks)),
                            Err(e) => Err(e),
                        }
                    }
                },
            }
        },
    }
}

/// Lifts an optional machine count into the spec scan's state.
pub open spec fn opt_int(o: Option<usize>) -> Option<int> {
    match o {
        None => None,
        Some(v) => Some(v as int),
    }
}

/// Prefix test against a five-byte keyword.
fn starts_with5(l: &Vec<u8>, b0: u8, b1: u8, b2: u8, b3: u8, b4: u8) -> (r: bool)
    ensures
        r == starts_with(l@, seq![b0, b1, b2, b3, b4]),
{
    let r = l.len() >= 5 && l[0] == b0 && l[1] == b1 && l[2] == b2 && l[3] == b3 && l[4] == b4;
    proof {
        if l@.len() >= 5 {
            if l@[0] == b0 && l@[1] == b1 && l@[2] == b2 && l@[3] == b3 && l@[4] == b4 {
                assert(l@.take(5) =~= seq![b0, b1, b2, b3, b4]);
            } else {
                assert(l@.take(5)[0] == l@[0] && l@.take(5)[1] == l@[1] && l@.take(5)[2] == l@[2]
                    && l@.take(5)[3] == l@[3] && l@.take(5)[4] == l@[4]);
            }
        }
    }
    r
}

/// Reads the value of a `NAME=value` header line: `None` when the line does
/// not hold exactly one `=`, `Some(None)` when the value is not a machine
/// count, `Some(Some(v))` otherwise.
fn header_field_value(l: &Vec<u8>) -> (r: Option<Option<usize>>)
    ensures
        (r is None) <==> count_byte(l@, EQUALS) != 1,
        r matches Some(inner) ==> inner == (if usize_token(header_value_seq(l@)) {
            Some(usize_token_val(header_value_seq(l@)) as usize)
        } else {
            None::<usize>
        }),
{
    let len: usize = l.len();
    let eq_count = crate::ascii::count_byte_in(l.as_slice(), EQUALS);
    if eq_count != 1 {
        return None;
    }
    let k = find_byte_in(l.as_slice(), EQUALS);
    proof {
        if k == l@.len() {
            lemma_count_byte_zero(l@, EQUALS);
            assert(false);
        }
    }
    let tail = copy_tail(l.as_slice(), k + 1);
    Some(parse_usize(tail.as_slice()))
}

/// Scans the header lines, exactly as [`scan_header`] describes; on success
/// returns the index of the first data line and the counts read.
fn scan_header_exec(lines: &Vec<Vec<u8>>, expected_ncomp: usize) -> (r: Result<
    (usize, Option<usize>, Option<usize>),
    MatrixTextError,
>)
    ensures
        r matches Ok((next, nr, nc)) ==> next <= lines@.len() && scan_header(
            seq_views(lines@),
            0,
            None,
            None,
            expected_ncomp as int,
        ) == (HeaderScan::Done { next: next as int, nrows: opt_int(nr), ncols: opt_int(nc) }),
        r matches Err(e) ==> scan_header(seq_views(lines@), 0, None, None, expected_ncomp as int)
            == HeaderScan::Fail(e),
{
    let n: usize = lines.len();
    let mut idx: usize = 0;
    let mut nrows_opt: Option<usize> = None;
    let mut ncols_opt: Option<usize> = None;
    while idx < n
        invariant
            idx <= n,
            n == lines@.len(),
            scan_header(seq_views(lines@), 0, None, None, expected_ncomp as int) == scan_header(
                seq_views(lines@),
                idx as int,
                opt_int(nrows_opt),
                opt_int(ncols_opt),
                expected_ncomp as int,
            ),
        decreases n - idx,
    {
        let l = &lines[idx];
        proof {
            assert(seq_views(lines@)[idx as int] == l@);
        }
        if l.len() == 0 || crate::ascii::ws_byte(l[0]) {
            proof {
                assert(is_blankish(seq_views(lines@)[idx as int]));
            }
            return Ok((idx + 1, nrows_opt, ncols_opt));
        }
        if starts_with5(l, 78, 82, 79, 87, 83) {
            proof {
                assert(seq![78u8, 82u8, 79u8, 87u8, 83u8] =~= kw_nrows());
            }
            match header_field_value(l) {
                None => {
                    return Err(
                        MatrixTextError::HeaderShape { field: HeaderField::Rows, line: idx },
                    );
                },
                Some(None) => {
                    return Err(
                        MatrixTextError::HeaderValue { field: HeaderField::Rows, line: idx },
                    );
                },
                Some(Some(v)) => {
                    nrows_opt = Some(v);
                },
            }
        } else if starts_with5(l, 78, 67, 79, 76, 83) {
            proof {
                assert(seq![78u8, 67u8, 79u8, 76u8, 83u8] =~= kw_ncols());
                assert(seq![78u8, 82u8, 79u8, 87u8, 83u8] =~= kw_nrows());
            }
            match header_field_value(l) {
                None => {
                    return Err(
                        MatrixTextError::HeaderShape { field: HeaderField::Cols, line: idx },
                    );
                },
                Some(None) => {
                    return Err(
                        MatrixTextError::HeaderValue { field: HeaderField::Cols, line: idx },
                    );
                },
                Some(Some(v)) => {
                    ncols_opt = Some(v);
                },
            }
        } else if starts_with5(l, 78, 67, 79, 77, 80) {
            proof {
                assert(seq![78u8, 67u8, 79u8, 77u8, 80u8] =~= kw_ncomp());
                assert(seq![78u8, 82u8, 79u8, 87u8, 83u8] =~= kw_nrows());
                assert(seq![78u8, 67u8, 79u8, 76u8, 83u8] =~= kw_ncols());
            }
            match header_field_value(l) {
                None => {
                    return Err(
                        MatrixTextError::HeaderShape { field: HeaderField::Comp, line: idx },
                    );
                },
                Some(None) => {
                    return Err(
                        MatrixTextError::HeaderValue { field: HeaderField::Comp, line: idx },
                    );
                },
                Some(Some(v)) => {
                    if v != expected_ncomp {
                        return Err(
                            MatrixTextError::WrongComponentCount {
                                found: v,
                                expected: expected_ncomp,
                                line: idx,
                            },
                        );
                    }
                },
            }
        } else {
            proof {
                assert(seq![78u8, 82u8, 79u8, 87u8, 83u8] =~= kw_nrows());
                assert(seq![78u8, 67u8, 79u8, 76u8, 83u8] =~= kw_ncols());
                assert(seq![78u8, 67u8, 79u8, 77u8, 80u8] =~= kw_ncomp());
            }
        }
        idx = idx + 1;
    }
    Ok((n, nrows_opt, ncols_opt))
}

/// Scans the data lines, exactly as [`scan_rows`] describes; on success
/// returns the flat row-major token vector.
fn scan_rows_exec(lines: &Vec<Vec<u8>>, next: usize, nrows: usize, width: usize) -> (r: Result<
    Vec<Vec<u8>>,
    MatrixTextError,
>)
    requires
        next + nrows <= lines@.len(),
    ensures
        r matches Ok(toks) ==> scan_rows(
            seq_views(lines@),
            next as int,
            0,
            nrows as int,
            width as int,
            Seq::empty(),
        ) matches Ok(mt) && views_match(toks@, mt),
        r matches Err(e) ==> scan_rows(
            seq_views(lines@),
            next as int,
            0,
            nrows as int,
            width as int,
            Seq::empty(),
        ) == Err::<Seq<Seq<u8>>, MatrixTextError>(e),
{
    let mut flat: Vec<Vec<u8>> = Vec::new();
    let mut r: usize = 0;
    proof {
        assert(seq_views(flat@) =~~= Seq::<Seq<u8>>::empty());
    }
    while r < nrows
        invariant
            r <= nrows,
            next + nrows <= lines@.len(),
            scan_rows(
                seq_views(lines@),
                next as int,
                0,
                nrows as int,
                width as int,
                Seq::empty(),
            ) == scan_rows(
                seq_views(lines@),
                next as int,
                r as int,
                nrows as int,
                width as int,
                seq_views(flat@),
            ),
        decreases nrows - r,
    {
        let nn: usize = lines.len();
        let row_line: usize = next + r;
        let mut toks = split_tokens(lines[row_line].as_slice());
        let ghost lm = seq_views(lines@);
        let ghost spec_toks = split_ws(lm[next + r]);
        proof {
            assert(lm[next + r] == lines@[next + r]@);
            assert(views_match(toks@, spec_toks));
        }
        if toks.len() != width {
            return Err(MatrixTextError::TokenCount { line: row_line, found: toks.len() });
        }
        let mut j: usize = 0;
        while j < toks.len()
            invariant
                j <= toks@.len(),
                views_match(toks@, spec_toks),
                spec_toks == split_ws(seq_views(lines@)[next + r]),
                next + r < lines@.len(),
                r < nrows,
                row_line == next + r,
                spec_toks.len() == width as int,
                scan_rows(
                    seq_views(lines@),
                    next as int,
                    0,
                    nrows as int,
                    width as int,
                    Seq::empty(),
                ) == scan_rows(
                    seq_views(lines@),
                    next as int,
                    r as int,
                    nrows as int,
                    width as int,
                    seq_views(flat@),
                ),
                forall|q: int| 0 <= q < j ==> numeric_token(#[trigger] spec_toks[q]),
            decreases toks@.len() - j,
        {
            if !is_numeric_token(toks[j].as_slice()) {
                proof {
                    assert(!numeric_token(spec_toks[j as int]));
                }
                return Err(MatrixTextError::BadToken { line: row_line });
            }
            j = j + 1;
        }
        let ghost old_flat = seq_views(flat@);
        flat.append(&mut toks);
        proof {
            assert(!(exists|q: int|
                0 <= q < spec_toks.len() && !numeric_token(#[trigger] spec_toks[q])));
            assert(seq_views(flat@) =~~= old_flat + spec_toks);
        }
        r = r + 1;
    }
    proof {
        let lm = seq_views(lines@);
        assert(scan_rows(lm, next as int, nrows as int, nrows as int, width as int, seq_views(flat@))
            == Ok::<Seq<Seq<u8>>, MatrixTextError>(seq_views(flat@)));
        assert(views_match(flat@, seq_views(flat@)));
    }
    Ok(flat)
}

/// Parses the content of a matrix file with the given component count; on
/// success returns the declared rows and columns and the flat row-major
/// token vector, exactly as [`parse_model`] describes.
pub fn parse_matrix_text(content: &[u8], expected_ncomp: usize) -> (r: Result<
    (usize, usize, Vec<Vec<u8>>),
    MatrixTextError,
>)
    ensures
        r matches Ok((rows, cols, toks)) ==> parse_model(content@, expected_ncomp as int)
            matches Ok(m) && m.0 == rows && m.1 == cols && views_match(toks@, m.2),
        r matches Err(e) ==> parse_model(content@, expected_ncomp as int) == Err::<
            (int, int, Seq<Seq<u8>>),
            MatrixTextError,
        >(e),
{
    let lines = split_lines(content);
    proof {
        lemma_views_match_seq_views(lines@, spec_lines(content@));
    }
    let (next, nrows_opt, ncols_opt) = match scan_header_exec(&lines, expected_ncomp) {
        Ok(t) => t,
        Err(e) => {
            return Err(e);
        },
    };
    let nrows = match nrows_opt {
        Some(v) => v,
        None => {
            return Err(MatrixTextError::MissingRowCount);
        },
    };
    let ncols = match ncols_opt {
        Some(v) => v,
        None => {
            return Err(MatrixTextError::MissingColumnCount);
        },
    };
    let data_count: usize = lines.len() - next;
    if data_count != nrows {
        return Err(MatrixTextError::RowCountMismatch { expected: nrows, found: data_count });
    }
    let width = match ncols.checked_mul(expected_ncomp) {
        Some(w) => w,
        None => {
            if nrows == 0 {
                let empty_toks: Vec<Vec<u8>> = Vec::new();
                proof {
                    assert(views_match(
                        empty_toks@,
                        scan_rows(
                            spec_lines(content@),
                            next as int,
                            0,
                            0,
                            ncols as int * expected_ncomp as int,
                            Seq::empty(),
                        )->Ok_0,
                    ));
                }
                return Ok((nrows, ncols, empty_toks));
            }
            let toks0 = split_tokens(lines[next].as_slice());
            let found0: usize = toks0.len();
            proof {
                let lm = seq_views(lines@);
                assert(lm[next as int] == lines@[next as int]@);
                assert(split_ws(lm[next as int]).len() == found0);
                assert(found0 <= usize::MAX);
                assert(ncols as int * expected_ncomp as int > usize::MAX);
            }
            return Err(MatrixTextError::TokenCount { line: next, found: found0 });
        },
    };
    match scan_rows_exec(&lines, next, nrows, width) {
        Ok(toks) => Ok((nrows, ncols, toks)),
        Err(e) => Err(e),
    }
}

/// A successful row scan yields one token per cell component: `width`
/// tokens for each of the remaining rows, after the accumulator.
pub proof fn lemma_scan_rows_len(
    lines: Seq<Seq<u8>>,
    first: int,
    r: int,
    nrows: int,
    width: int,
    acc: Seq<Seq<u8>>,
)
    requires
        0 <= r <= nrows,
        width >= 0,
    ensures
        scan_rows(lines, first, r, nrows, width, acc) matches Ok(res) ==> res.len() == acc.len()
            + (nrows - r) * width,
    decreases nrows - r,
{
    if r < nrows {
        let toks = split_ws(lines[first + r]);
        if toks.len() == width && !(exists|j: int|
            0 <= j < toks.len() && !numeric_token(#[trigger] toks[j])) {
            lemma_scan_rows_len(lines, first, r + 1, nrows, width, acc + toks);
            assert((nrows - r) * width == (nrows - r - 1) * width + width) by (nonlinear_arith);
        }
    } else {
        assert(scan_rows(lines, first, r, nrows, width, acc) == Ok::<
            Seq<Seq<u8>>,
            MatrixTextError,
        >(acc));
        assert((nrows - r) * width == 0) by (nonlinear_arith)
            requires
                nrows == r,
        ;
    }
}

/// Reads a scalar matrix (`NCOMP=1`) from file content: each cell one
/// numeric token, exactly as [`parse_model`] describes.
pub fn read_matrix(content: &[u8]) -> (r: Result<Matrix<Vec<u8>>, MatrixTextError>)
    ensures
        parse_model(content@, 1) matches Ok(m0) ==> (r matches Ok(m) && m.wf() && m.spec_rows()
            == m0.0 && m.spec_cols() == m0.1 && views_match(m.spec_data(), m0.2)),
        parse_model(content@, 1) matches Err(e) ==> r == Err::<Matrix<Vec<u8>>, MatrixTextError>(
            e,
        ),
{
    match parse_matrix_text(content, 1) {
        Err(e) => Err(e),
        Ok((rows, cols, toks)) => {
            proof {
                let lines = spec_lines(content@);
                let h = scan_header(lines, 0, None, None, 1);
                match h {
                    HeaderScan::Done { next, nrows, ncols } => {
                        match (nrows, ncols) {
                            (Some(nr), Some(nc)) => {
                                lemma_scan_rows_len(lines, next, 0, nr, nc * 1, Seq::empty());
                            },
                            _ => {},
                        }
                    },
                    _ => {},
                }
                assert(toks@.len() == rows * cols);
            }
            match Matrix::from_vec(rows, cols, toks) {
                Ok(m) => Ok(m),
                Err(_) => vstd::pervasive::unreached(),
            }
        },
    }
}

/// Reads a three-channel matrix (`NCOMP=3`) from file content: each cell
/// three numeric tokens, red, green, blue, exactly as [`parse_model`]
/// describes.
pub fn read_colour_matrix(content: &[u8]) -> (r: Result<
    Matrix<Colour<Vec<u8>>>,
    MatrixTextError,
>)
    ensures
        parse_model(content@, 3) matches Ok(m0) ==> (r matches Ok(m) && m.wf() && m.spec_rows()
            == m0.0 && m.spec_cols() == m0.1 && forall|k: int|
            0 <= k < m.spec_data().len() ==> (#[trigger] m.spec_data()[k]).red@ == m0.2[3 * k]
                && m.spec_data()[k].green@ == m0.2[3 * k + 1] && m.spec_data()[k].blue@ == m0.2[3
                * k + 2]),
        parse_model(content@, 3) matches Err(e) ==> r == Err::<
            Matrix<Colour<Vec<u8>>>,
            MatrixTextError,
        >(e),
{
    match parse_matrix_text(content, 3) {
        Err(e) => Err(e),
        Ok((rows, cols, mut toks)) => {
            proof {
                let lines = spec_lines(content@);
                let h = scan_header(lines, 0, None, None, 3);
                match h {
                    HeaderScan::Done { next, nrows, ncols } => {
                        match (nrows, ncols) {
                            (Some(nr), Some(nc)) => {
                                lemma_scan_rows_len(lines, next, 0, nr, nc * 3, Seq::empty());
                                assert(nr * (nc * 3) == (nr * nc) * 3) by (nonlinear_arith);
                            },
                            _ => {},
                        }
                    },
                    _ => {},
                }
                assert(toks@.len() == (rows * cols) * 3);
            }
            let ghost orig = toks@;
            let ghost mm = parse_model(content@, 3)->Ok_0;
            let mut cells: Vec<Colour<Vec<u8>>> = Vec::new();
            proof {
                assert(orig.skip(0) =~= orig);
            }
            while toks.len() >= 3
                invariant
                    3 * cells@.len() + toks@.len() == orig.len(),
                    toks@ == orig.skip(3 * cells@.len() as int),
                    forall|k: int|
                        0 <= k < cells@.len() ==> (#[trigger] cells@[k]).red == orig[3 * k]
                            && cells@[k].green == orig[3 * k + 1] && cells@[k].blue == orig[3 * k
                            + 2],
                decreases toks@.len(),
            {
                let ghost c = cells@.len() as int;
                let red = toks.remove(0);
                let green = toks.remove(0);
                let blue = toks.remove(0);
                proof {
                    assert(red == orig.skip(3 * c)[0]);
                    assert(green == orig.skip(3 * c)[1]);
                    assert(blue == orig.skip(3 * c)[2]);
                    assert(orig.skip(3 * c)[0] == orig[3 * c]);
                    assert(orig.skip(3 * c)[1] == orig[3 * c + 1]);
                    assert(orig.skip(3 * c)[2] == orig[3 * c + 2]);
                    assert(toks@ =~= orig.skip(3 * (c + 1)));
                }
                cells.push(Colour { red, green, blue });
            }
            proof {
                assert(orig.len() == (rows * cols) * 3);
                assert(toks@.len() < 3);
                assert(3 * cells@.len() + toks@.len() == (rows * cols) * 3);
                assert(cells@.len() == rows * cols);
            }
            match Matrix::from_vec(rows, cols, cells) {
                Ok(m) => {
                    proof {
                        assert(views_match(orig, mm.2));
                        assert forall|k: int| 0 <= k < m.spec_data().len() implies (
                        #[trigger] m.spec_data()[k]).red@ == mm.2[3 * k] && m.spec_data()[k].green@
                            == mm.2[3 * k + 1] && m.spec_data()[k].blue@ == mm.2[3 * k + 2] by {
                            assert(m.spec_data()[k] == cells@[k]);
                        }
                    }
                    Ok(m)
                },
                Err(_) => vstd::pervasive::unreached(),
            }
        },
    }
}

// ---------------------------------------------------------------------------
// Rendering
// ---------------------------------------------------------------------------

/// One data line: each token followed by a tab.
pub open spec fn row_line(tokens: Seq<Seq<u8>>) -> Seq<u8>
    decreases tokens.len(),
{
    if tokens.len() == 0 {
        Seq::<u8>::empty()
    } else {
        tokens.first() + seq![TAB] + row_line(tokens.drop_first())
    }
}

/// The data lines of a matrix with `rows` rows of `width` tokens each.
pub open spec fn body_lines(tokens: Seq<Seq<u8>>, rows: int, width: int) -> Seq<Seq<u8>> {
    Seq::new(rows as nat, |r: int| row_line(tokens.subrange(r * width, (r + 1) * width)))
}

/// The header lines, including the blank separator line.
pub open spec fn header_block(rows: int, cols: int, ncomp: int) -> Seq<Seq<u8>> {
    seq![
        kw_simple(),
        kw_nrows() + seq![EQUALS] + dec_digits(rows as nat),
        kw_ncols() + seq![EQUALS] + dec_digits(cols as nat),
        kw_ncomp() + seq![EQUALS] + dec_digits(ncomp as nat),
        kw_format(),
        Seq::<u8>::empty(),
    ]
}

/// Joins lines, each followed by a line feed.
pub open spec fn join_lines(ls: Seq<Seq<u8>>) -> Seq<u8>
    decreases ls.len(),
{
    if ls.len() == 0 {
        Seq::<u8>::empty()
    } else {
        ls.first() + seq![NEWLINE] + join_lines(ls.drop_first())
    }
}

/// The full rendered file: header block, blank line, data lines.
pub open spec fn render_model(rows: int, cols: int, ncomp: int, tokens: Seq<Seq<u8>>) -> Seq<u8> {
    join_lines(header_block(rows, cols, ncomp) + body_lines(tokens, rows, cols * ncomp))
}

/// Appending a line extends the joined file by the line and a line feed.
pub proof fn lemma_join_lines_push(ls: Seq<Seq<u8>>, l: Seq<u8>)
    ensures
        join_lines(ls.push(l)) == join_lines(ls) + l + seq![NEWLINE],
    decreases ls.len(),
{
    if ls.len() == 0 {
        assert(ls.push(l).first() == l);
        assert(ls.push(l).drop_first() =~= Seq::<Seq<u8>>::empty());
        assert(join_lines(Seq::<Seq<u8>>::empty()) == Seq::<u8>::empty());
        assert(ls =~= Seq::<Seq<u8>>::empty());
        assert(join_lines(ls.push(l)) =~= join_lines(ls) + l + seq![NEWLINE]);
    } else {
        lemma_join_lines_push(ls.drop_first(), l);
        assert(ls.push(l).first() == ls.first());
        assert(ls.push(l).drop_first() =~= ls.drop_first().push(l));
        assert(join_lines(ls.push(l)) =~= join_lines(ls) + l + seq![NEWLINE]);
    }
}

/// Appending a token extends a data line by the token and a tab.
pub proof fn lemma_row_line_push(ts: Seq<Seq<u8>>, t: Seq<u8>)
    ensures
        row_line(ts.push(t)) == row_line(ts) + t + seq![TAB],
    decreases ts.len(),
{
    if ts.len() == 0 {
        assert(ts.push(t).first() == t);
        assert(ts.push(t).drop_first() =~= Seq::<Seq<u8>>::empty());
        assert(row_line(Seq::<Seq<u8>>::empty()) == Seq::<u8>::empty());
        assert(ts =~= Seq::<Seq<u8>>::empty());
        assert(row_line(ts.push(t)) =~= row_line(ts) + t + seq![TAB]);
    } else {
        lemma_row_line_push(ts.drop_first(), t);
        assert(ts.push(t).first() == ts.first());
        assert(ts.push(t).drop_first() =~= ts.drop_first().push(t));
        assert(row_line(ts.push(t)) =~= row_line(ts) + t + seq![TAB]);
    }
}

/// Renders a matrix file from its dimensions and flat row-major tokens,
/// exactly as [`render_model`] describes.
pub fn render_matrix_text(rows: usize, cols: usize, ncomp: usize, tokens: &Vec<Vec<u8>>) -> (out:
    Vec<u8>)
    requires
        tokens@.len() == rows * cols * ncomp,
        cols * ncomp <= usize::MAX,
    ensures
        out@ == render_model(rows as int, cols as int, ncomp as int, seq_views(tokens@)),
{
    let width: usize = cols * ncomp;
    let ghost hdr = header_block(rows as int, cols as int, ncomp as int);
    let ghost all_toks = seq_views(tokens@);
    let mut out: Vec<u8> = Vec::new();

    push_bytes(&mut out, &[35, 63, 83, 73, 77, 80, 76, 69]);
    out.push(NEWLINE);
    proof {
        assert(hdr[0] =~= seq![35u8, 63u8, 83u8, 73u8, 77u8, 80u8, 76u8, 69u8]);
        assert(hdr.take(1) =~= Seq::<Seq<u8>>::empty().push(hdr[0]));
        lemma_join_lines_push(Seq::<Seq<u8>>::empty(), hdr[0]);
        assert(join_lines(Seq::<Seq<u8>>::empty()) == Seq::<u8>::empty());
        assert(out@ =~= join_lines(Seq::<Seq<u8>>::empty()) + hdr[0] + seq![NEWLINE]);
        assert(out@ == join_lines(hdr.take(1)));
    }

    push_bytes(&mut out, &[78, 82, 79, 87, 83, 61]);
    let rows_digits = render_usize(rows);
    push_bytes(&mut out, rows_digits.as_slice());
    out.push(NEWLINE);
    proof {
        assert(hdr[1] =~= seq![78u8, 82u8, 79u8, 87u8, 83u8, 61u8] + dec_digits(rows as nat));
        assert(hdr.take(2) =~= hdr.take(1).push(hdr[1]));
        lemma_join_lines_push(hdr.take(1), hdr[1]);
        assert(out@ =~= join_lines(hdr.take(1)) + hdr[1] + seq![NEWLINE]);
        assert(out@ == join_lines(hdr.take(2)));
    }

    push_bytes(&mut out, &[78, 67, 79, 76, 83, 61]);
    let cols_digits = render_usize(cols);
    push_bytes(&mut out, cols_digits.as_slice());
    out.push(NEWLINE);
    proof {
        assert(hdr[2] =~= seq![78u8, 67u8, 79u8, 76u8, 83u8, 61u8] + dec_digits(cols as nat));
        assert(hdr.take(3) =~= hdr.take(2).push(hdr[2]));
        lemma_join_lines_push(hdr.take(2), hdr[2]);
        assert(out@ =~= join_lines(hdr.take(2)) + hdr[2] + seq![NEWLINE]);
        assert(out@ == join_lines(hdr.take(3)));
    }

    push_bytes(&mut out, &[78, 67, 79, 77, 80, 61]);
    let ncomp_digits = render_usize(ncomp);
    push_bytes(&mut out, ncomp_digits.as_slice());
    out.push(NEWLINE);
    proof {
        assert(hdr[3] =~= seq![78u8, 67u8, 79u8, 77u8, 80u8, 61u8] + dec_digits(ncomp as nat));
        assert(hdr.take(4) =~= hdr.take(3).push(hdr[3]));
        lemma_join_lines_push(hdr.take(3), hdr[3]);
        assert(out@ =~= join_lines(hdr.take(3)) + hdr[3] + seq![NEWLINE]);
        assert(out@ == join_lines(hdr.take(4)));
    }

    push_bytes(&mut out, &[70, 79, 82, 77, 65, 84, 61, 97, 115, 99, 105, 105]);
    out.push(NEWLINE);
    out.push(NEWLINE);
    proof {
        assert(hdr[4] =~= seq![
            70u8,
            79u8,
            82u8,
            77u8,
            65u8,
            84u8,
            61u8,
            97u8,
            115u8,
            99u8,
            105u8,
            105u8,
        ]);
        assert(hdr[5] =~= Seq::<u8>::empty());
        assert(hdr.take(5) =~= hdr.take(4).push(hdr[4]));
        assert(hdr.take(6) =~= hdr.take(5).push(hdr[5]));
        lemma_join_lines_push(hdr.take(4), hdr[4]);
        lemma_join_lines_push(hdr.take(5), hdr[5]);
        assert(out@ =~= join_lines(hdr.take(4)) + hdr[4] + seq![NEWLINE] + hdr[5] + seq![NEWLINE]);
        assert(out@ =~= join_lines(hdr.take(5)) + hdr[5] + seq![NEWLINE]);
        assert(out@ == join_lines(hdr.take(6)));
        assert(hdr.take(6) =~= hdr);
        assert(body_lines(all_toks, 0, width as int) =~~= Seq::<Seq<u8>>::empty());
        assert(hdr + body_lines(all_toks, 0, width as int) =~~= hdr);
        assert(out@ == join_lines(hdr + body_lines(all_toks, 0, width as int)));
    }

    let tn: usize = tokens.len();
    let mut r: usize = 0;
    while r < rows
        invariant
            r <= rows,
            width == cols * ncomp,
            tokens@.len() == rows * cols * ncomp,
            tn == tokens@.len(),
            all_toks == seq_views(tokens@),
            hdr == header_block(rows as int, cols as int, ncomp as int),
            out@ == join_lines(hdr + body_lines(all_toks, r as int, width as int)),
        decreases rows - r,
    {
        proof {
            assert((r + 1) * width <= rows * width && rows * width == rows * cols * ncomp && r
                * width <= rows * width && (r + 1) * width == r * width + width) by (
            nonlinear_arith)
                requires
                    r < rows,
                    width == cols * ncomp,
            ;
        }
        let base: usize = r * width;
        let mut linebuf: Vec<u8> = Vec::new();
        let mut c: usize = 0;
        proof {
            assert(all_toks.subrange(base as int, base as int) =~= Seq::<Seq<u8>>::empty());
        }
        while c < width
            invariant
                c <= width,
                base == r as int * width,
                base + width <= tokens@.len(),
                tn == tokens@.len(),
                all_toks == seq_views(tokens@),
                linebuf@ == row_line(all_toks.subrange(base as int, base + c)),
            decreases width - c,
        {
            push_bytes(&mut linebuf, tokens[base + c].as_slice());
            linebuf.push(TAB);
            proof {
                assert(all_toks.subrange(base as int, base + c + 1) =~= all_toks.subrange(
                    base as int,
                    base + c,
                ).push(all_toks[base + c]));
                lemma_row_line_push(all_toks.subrange(base as int, base + c), all_toks[base + c]);
                assert(all_toks[base + c] == tokens@[base + c]@);
                assert(linebuf@ == row_line(all_toks.subrange(base as int, base + c + 1)));
            }
            c = c + 1;
        }
        let ghost done = hdr + body_lines(all_toks, r as int, width as int);
        push_bytes(&mut out, linebuf.as_slice());
        out.push(NEWLINE);
        proof {
            lemma_join_lines_push(done, linebuf@);
            assert(base + width == (r as int + 1) * width) by (nonlinear_arith)
                requires
                    base == r as int * width,
            ;
            assert(linebuf@ == row_line(
                all_toks.subrange(r as int * width, (r as int + 1) * width),
            ));
            assert(body_lines(all_toks, r as int + 1, width as int) =~~= body_lines(
                all_toks,
                r as int,
                width as int,
            ).push(linebuf@));
            assert(hdr + body_lines(all_toks, r as int + 1, width as int) =~~= done.push(
                linebuf@,
            ));
            assert(out@ == join_lines(hdr + body_lines(all_toks, r as int + 1, width as int)));
        }
        r = r + 1;
    }
    out
}

// ---------------------------------------------------------------------------
// Round trip: rendering then parsing is the identity
// ---------------------------------------------------------------------------

/// A line the renderer may emit: no line feed inside, no trailing carriage
/// return.
pub open spec fn line_clean(l: Seq<u8>) -> bool {
    (forall|i: int| 0 <= i < l.len() ==> l[i] != NEWLINE) && (l.len() > 0 ==> l.last()
        != CARRIAGE_RETURN)
}

/// Joining clean lines and splitting again yields the lines back.
pub proof fn lemma_raw_lines_of_join(ls: Seq<Seq<u8>>)
    requires
        forall|q: int| 0 <= q < ls.len() ==> line_clean(#[trigger] ls[q]),
    ensures
        raw_lines(join_lines(ls)) == ls.push(Seq::<u8>::empty()),
    decreases ls.len(),
{
    if ls.len() == 0 {
        assert(join_lines(ls) == Seq::<u8>::empty());
        assert(raw_lines(Seq::<u8>::empty()) == seq![Seq::<u8>::empty()]);
        assert(raw_lines(join_lines(ls)) =~~= ls.push(Seq::<u8>::empty()));
    } else {
        assert(join_lines(ls) == ls.first() + seq![NEWLINE] + join_lines(ls.drop_first()));
        assert forall|q: int| 0 <= q < ls.drop_first().len() implies line_clean(
            #[trigger] ls.drop_first()[q],
        ) by {
            assert(ls.drop_first()[q] == ls[q + 1]);
        }
        lemma_raw_lines_of_join(ls.drop_first());
        assert(line_clean(ls.first()));
        lemma_raw_lines_line(ls.first(), join_lines(ls.drop_first()));
        assert(raw_lines(join_lines(ls)) == seq![ls.first()] + raw_lines(
            join_lines(ls.drop_first()),
        ));
        assert(raw_lines(join_lines(ls)) =~~= ls.push(Seq::<u8>::empty()));
    }
}

/// Splitting a joined clean file into lines yields the lines back.
pub proof fn lemma_spec_lines_of_join(ls: Seq<Seq<u8>>)
    requires
        forall|q: int| 0 <= q < ls.len() ==> line_clean(#[trigger] ls[q]),
    ensures
        spec_lines(join_lines(ls)) == ls,
{
    lemma_raw_lines_of_join(ls);
    let raw = raw_lines(join_lines(ls));
    assert(raw.last() == Seq::<u8>::empty());
    assert(raw.drop_last() =~~= ls);
    assert forall|q: int| 0 <= q < ls.len() implies strip_cr(raw.drop_last()[q]) == ls[q] by {
        assert(raw.drop_last()[q] == ls[q]);
        assert(line_clean(ls[q]));
    }
    assert(spec_lines(join_lines(ls)) =~~= ls);
}

/// A data line built from numeric tokens is clean.
pub proof fn lemma_row_line_clean(ts: Seq<Seq<u8>>)
    requires
        forall|q: int| 0 <= q < ts.len() ==> numeric_token(#[trigger] ts[q]),
    ensures
        line_clean(row_line(ts)),
    decreases ts.len(),
{
    if ts.len() == 0 {
        assert(line_clean(row_line(ts)));
    } else {
        let t0 = ts.first();
        let rest = row_line(ts.drop_first());
        assert forall|q: int| 0 <= q < ts.drop_first().len() implies numeric_token(
            #[trigger] ts.drop_first()[q],
        ) by {
            assert(ts.drop_first()[q] == ts[q + 1]);
        }
        lemma_row_line_clean(ts.drop_first());
        lemma_numeric_token_bytes(t0);
        let full = row_line(ts);
        assert(full == t0 + seq![TAB] + rest);
        assert forall|i: int| 0 <= i < full.len() implies full[i] != NEWLINE by {
            if i < t0.len() {
                assert(full[i] == t0[i]);
                assert(33 <= t0[i]);
            } else if i == t0.len() {
                assert(full[i] == TAB);
            } else {
                assert(full[i] == rest[i - t0.len() - 1]);
            }
        }
        if rest.len() == 0 {
            assert(full.last() == TAB);
        } else {
            assert(full.last() == rest.last());
        }
    }
}

/// Tokenizing a data line built from numeric tokens yields the tokens back.
pub proof fn lemma_split_ws_row_line(ts: Seq<Seq<u8>>)
    requires
        forall|q: int| 0 <= q < ts.len() ==> numeric_token(#[trigger] ts[q]),
    ensures
        split_ws(row_line(ts)) == ts,
    decreases ts.len(),
{
    if ts.len() == 0 {
        assert(split_ws(row_line(ts)) =~~= ts);
    } else {
        let t0 = ts.first();
        lemma_numeric_token_bytes(t0);
        let rest_line = row_line(ts.drop_first());
        let s = row_line(ts);
        assert(s == t0 + seq![TAB] + rest_line);
        let k = t0.len() as int;
        assert forall|j: int| 0 <= j < k implies !crate::ascii::is_ascii_ws(s[j]) by {
            assert(s[j] == t0[j]);
            assert(33 <= t0[j]);
        }
        assert(s[k] == TAB);
        assert(crate::ascii::is_ascii_ws(TAB));
        lemma_split_ws_token(s, k);
        assert(s.take(k) =~= t0);
        assert(s.skip(k) =~= seq![TAB] + rest_line);
        let tail = seq![TAB] + rest_line;
        assert(tail[0] == TAB);
        assert(tail.skip(1) =~= rest_line);
        assert(split_ws(tail) == split_ws(rest_line));
        assert forall|q: int| 0 <= q < ts.drop_first().len() implies numeric_token(
            #[trigger] ts.drop_first()[q],
        ) by {
            assert(ts.drop_first()[q] == ts[q + 1]);
        }
        lemma_split_ws_row_line(ts.drop_first());
        assert(split_ws(s) == seq![t0] + ts.drop_first());
        assert(split_ws(s) =~~= ts);
    }
}

/// The header block's lines are clean.
pub proof fn lemma_header_block_clean(rows: int, cols: int, ncomp: int)
    requires
        rows >= 0,
        cols >= 0,
        ncomp >= 0,
    ensures
        forall|q: int|
            0 <= q < 6 ==> line_clean(#[trigger] header_block(rows, cols, ncomp)[q]),
{
    let hdr = header_block(rows, cols, ncomp);
    lemma_dec_digits_shape(rows as nat);
    lemma_dec_digits_shape(cols as nat);
    lemma_dec_digits_shape(ncomp as nat);
    assert forall|q: int| 0 <= q < 6 implies line_clean(#[trigger] hdr[q]) by {
        if q == 1 || q == 2 || q == 3 {
            let kw = if q == 1 {
                kw_nrows()
            } else if q == 2 {
                kw_ncols()
            } else {
                kw_ncomp()
            };
            let digits = if q == 1 {
                dec_digits(rows as nat)
            } else if q == 2 {
                dec_digits(cols as nat)
            } else {
                dec_digits(ncomp as nat)
            };
            let line = hdr[q];
            assert(line == kw + seq![EQUALS] + digits);
            assert forall|i: int| 0 <= i < line.len() implies line[i] != NEWLINE by {
                if i < 5 {
                    assert(line[i] == kw[i]);
                } else if i == 5 {
                    assert(line[i] == EQUALS);
                } else {
                    assert(line[i] == digits[i - 6]);
                    assert(crate::ascii::is_digit(digits[i - 6]));
                }
            }
            assert(line.last() == digits.last());
            assert(crate::ascii::is_digit(digits.last()));
        }
    }
}

/// Scanning the rendered header yields the rendered row and column counts
/// and ends at the blank line, whatever follows it.
pub proof fn lemma_scan_header_block(rows: usize, cols: usize, ncomp: usize, body: Seq<Seq<u8>>)
    ensures
        scan_header(
            header_block(rows as int, cols as int, ncomp as int) + body,
            0,
            None,
            None,
            ncomp as int,
        ) == (HeaderScan::Done {
            next: 6,
            nrows: Some(rows as int),
            ncols: Some(cols as int),
        }),
{
    let hdr = header_block(rows as int, cols as int, ncomp as int);
    let l = hdr + body;
    let e = ncomp as int;
    assert(l.len() >= 6);
    assert(l[0] == kw_simple());
    assert(l[1] == kw_nrows() + seq![EQUALS] + dec_digits(rows as nat));
    assert(l[2] == kw_ncols() + seq![EQUALS] + dec_digits(cols as nat));
    assert(l[3] == kw_ncomp() + seq![EQUALS] + dec_digits(ncomp as nat));
    assert(l[4] == kw_format());
    assert(l[5] == Seq::<u8>::empty());

    // Line 0 is ignored: not blank, not a recognized keyword.
    assert(l[0][0] == 35);
    assert(!is_blankish(l[0]));
    assert(!starts_with(l[0], kw_nrows())) by {
        if starts_with(l[0], kw_nrows()) {
            assert(l[0].take(5)[0] == l[0][0]);
        }
    }
    assert(!starts_with(l[0], kw_ncols())) by {
        if starts_with(l[0], kw_ncols()) {
            assert(l[0].take(5)[0] == l[0][0]);
        }
    }
    assert(!starts_with(l[0], kw_ncomp())) by {
        if starts_with(l[0], kw_ncomp()) {
            assert(l[0].take(5)[0] == l[0][0]);
        }
    }
    assert(scan_header(l, 0, None, None, e) == scan_header(l, 1, None, None, e));

    // Line 1 sets the row count.
    lemma_header_value_line(kw_nrows(), rows);
    assert(l[1][0] == 78) by {
        assert(l[1][0] == kw_nrows()[0]);
    }
    assert(!is_blankish(l[1]));
    assert(starts_with(l[1], kw_nrows())) by {
        assert(l[1].take(5) =~= kw_nrows());
    }
    assert(scan_header(l, 1, None, None, e) == scan_header(
        l,
        2,
        Some(rows as int),
        None,
        e,
    ));

    // Line 2 sets the column count.
    lemma_header_value_line(kw_ncols(), cols);
    assert(l[2][0] == 78) by {
        assert(l[2][0] == kw_ncols()[0]);
    }
    assert(!is_blankish(l[2]));
    assert(!starts_with(l[2], kw_nrows())) by {
        if starts_with(l[2], kw_nrows()) {
            assert(l[2].take(5)[1] == l[2][1]);
            assert(l[2][1] == kw_ncols()[1]);
        }
    }
    assert(starts_with(l[2], kw_ncols())) by {
        assert(l[2].take(5) =~= kw_ncols());
    }
    assert(scan_header(l, 2, Some(rows as int), None, e) == scan_header(
        l,
        3,
        Some(rows as int),
        Some(cols as int),
        e,
    ));

    // Line 3 carries the expected component count.
    lemma_header_value_line(kw_ncomp(), ncomp);
    assert(l[3][0] == 78) by {
        assert(l[3][0] == kw_ncomp()[0]);
    }
    assert(!is_blankish(l[3]));
    assert(!starts_with(l[3], kw_nrows())) by {
        if starts_with(l[3], kw_nrows()) {
            assert(l[3].take(5)[1] == l[3][1]);
            assert(l[3][1] == kw_ncomp()[1]);
        }
    }
    assert(!starts_with(l[3], kw_ncols())) by {
        if starts_with(l[3], kw_ncols()) {
            assert(l[3].take(5)[3] == l[3][3]);
            assert(l[3][3] == kw_ncomp()[3]);
        }
    }
    assert(starts_with(l[3], kw_ncomp())) by {
        assert(l[3].take(5) =~= kw_ncomp());
    }
    assert(scan_header(l, 3, Some(rows as int), Some(cols as int), e) == scan_header(
        l,
        4,
        Some(rows as int),
        Some(cols as int),
        e,
    ));

    // Line 4 is ignored.
    assert(l[4][0] == 70);
    assert(!is_blankish(l[4]));
    assert(!starts_with(l[4], kw_nrows())) by {
        if starts_with(l[4], kw_nrows()) {
            assert(l[4].take(5)[0] == l[4][0]);
        }
    }
    assert(!starts_with(l[4], kw_ncols())) by {
        if starts_with(l[4], kw_ncols()) {
            assert(l[4].take(5)[0] == l[4][0]);
        }
    }
    assert(!starts_with(l[4], kw_ncomp())) by {
        if starts_with(l[4], kw_ncomp()) {
            assert(l[4].take(5)[0] == l[4][0]);
        }
    }
    assert(scan_header(l, 4, Some(rows as int), Some(cols as int), e) == scan_header(
        l,
        5,
        Some(rows as int),
        Some(cols as int),
        e,
    ));

    // Line 5 is blank and ends the header.
    assert(is_blankish(l[5]));
    assert(scan_header(l, 5, Some(rows as int), Some(cols as int), e) == (HeaderScan::Done {
        next: 6,
        nrows: Some(rows as int),
        ncols: Some(cols as int),
    }));
}

/// A rendered `NAME=value` header line has exactly one `=`, at the end of
/// the keyword, and its value parses back to the rendered count.
proof fn lemma_header_value_line(kw: Seq<u8>, value: usize)
    requires
        kw.len() == 5,
        forall|i: int| 0 <= i < 5 ==> kw[i] != EQUALS,
    ensures
        count_byte(kw + seq![EQUALS] + dec_digits(value as nat), EQUALS) == 1,
        usize_token(header_value_seq(kw + seq![EQUALS] + dec_digits(value as nat))),
        usize_token_val(header_value_seq(kw + seq![EQUALS] + dec_digits(value as nat)))
            == value,
{
    let digits = dec_digits(value as nat);
    let line = kw + seq![EQUALS] + digits;
    lemma_dec_digits_shape(value as nat);
    lemma_dec_digits_val(value as nat);
    lemma_count_byte_zero(kw, EQUALS);
    assert(seq![EQUALS].drop_last() =~= Seq::<u8>::empty());
    assert(seq![EQUALS].last() == EQUALS);
    assert(count_byte(Seq::<u8>::empty(), EQUALS) == 0);
    assert(count_byte(seq![EQUALS], EQUALS) == 1);
    assert forall|i: int| 0 <= i < digits.len() implies digits[i] != EQUALS by {
        assert(crate::ascii::is_digit(digits[i]));
    }
    lemma_count_byte_zero(digits, EQUALS);
    lemma_count_byte_add(kw, seq![EQUALS], EQUALS);
    lemma_count_byte_add(kw + seq![EQUALS], digits, EQUALS);
    assert(count_byte(line, EQUALS) == 1);
    crate::ascii::lemma_first_byte_idx(line, EQUALS, 5);
    assert(header_value_seq(line) =~= digits);
    assert(crate::ascii::strip_plus(digits) == digits) by {
        assert(crate::ascii::is_digit(digits[0]));
    }
    assert(usize_token(digits));
    assert(usize_token_val(digits) == value);
}

/// Scanning the rendered data lines yields the flat tokens back.
pub proof fn lemma_scan_rows_of_body(
    l: Seq<Seq<u8>>,
    tokens: Seq<Seq<u8>>,
    first: int,
    r: int,
    nrows: int,
    width: int,
)
    requires
        0 <= r <= nrows,
        width >= 0,
        first >= 0,
        l.len() == first + nrows,
        tokens.len() == nrows * width,
        forall|q: int|
            r <= q < nrows ==> l[first + q] == row_line(
                #[trigger] tokens.subrange(q * width, (q + 1) * width),
            ),
        forall|k: int| 0 <= k < tokens.len() ==> numeric_token(#[trigger] tokens[k]),
    ensures
        scan_rows(l, first, r, nrows, width, tokens.take(r * width)) == Ok::<
            Seq<Seq<u8>>,
            MatrixTextError,
        >(tokens),
    decreases nrows - r,
{
    assert(0 <= r * width && r * width <= nrows * width && (r + 1) * width == r * width + width
        && (r < nrows ==> (r + 1) * width <= nrows * width)) by (nonlinear_arith)
        requires
            0 <= r <= nrows,
            width >= 0,
    ;
    if r == nrows {
        assert(tokens.take(r * width) =~= tokens);
        assert(scan_rows(l, first, r, nrows, width, tokens) == Ok::<
            Seq<Seq<u8>>,
            MatrixTextError,
        >(tokens));
    } else {
        let row_toks = tokens.subrange(r * width, (r + 1) * width);
        assert forall|q: int| 0 <= q < row_toks.len() implies numeric_token(
            #[trigger] row_toks[q],
        ) by {
            assert(row_toks[q] == tokens[r * width + q]);
        }
        lemma_split_ws_row_line(row_toks);
        assert(l[first + r] == row_line(row_toks));
        let toks = split_ws(l[first + r]);
        assert(toks == row_toks);
        assert(toks.len() == width);
        assert(!(exists|j: int| 0 <= j < toks.len() && !numeric_token(#[trigger] toks[j])));
        assert(tokens.take(r * width) + toks =~= tokens.take((r + 1) * width));
        lemma_scan_rows_of_body(l, tokens, first, r + 1, nrows, width);
        assert(scan_rows(l, first, r, nrows, width, tokens.take(r * width)) == scan_rows(
            l,
            first,
            r + 1,
            nrows,
            width,
            tokens.take((r + 1) * width),
        ));
    }
}

/// Round trip: rendering a matrix file from valid dimensions and numeric
/// tokens and parsing it back yields exactly the rendered dimensions and
/// tokens, for the scalar and the three-channel component counts alike.
pub proof fn lemma_matrix_text_round_trip(
    rows: usize,
    cols: usize,
    ncomp: usize,
    tokens: Seq<Seq<u8>>,
)
    requires
        ncomp == 1 || ncomp == 3,
        tokens.len() == rows * cols * ncomp,
        forall|k: int| 0 <= k < tokens.len() ==> numeric_token(#[trigger] tokens[k]),
    ensures
        parse_model(
            render_model(rows as int, cols as int, ncomp as int, tokens),
            ncomp as int,
        ) == Ok::<(int, int, Seq<Seq<u8>>), MatrixTextError>((rows as int, cols as int, tokens)),
{
    let width = cols as int * ncomp as int;
    let hdr = header_block(rows as int, cols as int, ncomp as int);
    let body = body_lines(tokens, rows as int, width);
    let l = hdr + body;
    let content = render_model(rows as int, cols as int, ncomp as int, tokens);
    assert(content == join_lines(l));
    assert(hdr.len() == 6);
    assert(body.len() == rows as int);
    assert(l.len() == 6 + rows);
    assert(width >= 0 && rows * cols * ncomp == rows as int * width) by (nonlinear_arith)
        requires
            width == cols as int * ncomp as int,
    ;

    // Every emitted line is clean, so splitting gives the lines back.
    lemma_header_block_clean(rows as int, cols as int, ncomp as int);
    assert forall|q: int| 0 <= q < l.len() implies line_clean(#[trigger] l[q]) by {
        if q < 6 {
            assert(l[q] == hdr[q]);
        } else {
            let b = q - 6;
            assert(l[q] == body[b]);
            assert(body[b] == row_line(tokens.subrange(b * width, (b + 1) * width)));
            let row_toks = tokens.subrange(b * width, (b + 1) * width);
            assert(0 <= b * width && (b + 1) * width <= rows as int * width && (b + 1) * width
                == b * width + width) by (nonlinear_arith)
                requires
                    0 <= b < rows,
                    width >= 0,
            ;
            assert(row_toks.len() == width);
            assert forall|p: int| 0 <= p < row_toks.len() implies numeric_token(
                #[trigger] row_toks[p],
            ) by {
                assert(row_toks[p] == tokens[b * width + p]);
            }
            lemma_row_line_clean(row_toks);
        }
    }
    lemma_spec_lines_of_join(l);
    assert(spec_lines(content) == l);

    // The header scan recovers the dimensions.
    lemma_scan_header_block(rows, cols, ncomp, body);

    // Exactly `rows` data lines follow.
    assert(l.len() - 6 == rows);

    // The row scan recovers the tokens.
    assert forall|q: int|
        0 <= q < rows implies l[6 + q] == row_line(
        #[trigger] tokens.subrange(q * width, (q + 1) * width),
    ) by {
        assert(l[6 + q] == body[q]);
    }
    assert(tokens.take(0) =~= Seq::<Seq<u8>>::empty());
    lemma_scan_rows_of_body(l, tokens, 6, 0, rows as int, width);
    assert(scan_rows(l, 6, 0, rows as int, width, Seq::empty()) == Ok::<
        Seq<Seq<u8>>,
        MatrixTextError,
    >(tokens));
}

// ---------------------------------------------------------------------------
// Saving matrices
// ---------------------------------------------------------------------------

/// The flat token sequence of a three-channel matrix: red, green, blue per
/// cell, row-major.
pub open spec fn flat_colour(data: Seq<Colour<Vec<u8>>>) -> Seq<Seq<u8>> {
    Seq::new(
        (3 * data.len()) as nat,
        |k: int|
            if k % 3 == 0 {
                data[k / 3].red@
            } else if k % 3 == 1 {
                data[k / 3].green@
            } else {
                data[k / 3].blue@
            },
    )
}

/// Copies a byte vector.
fn clone_bytes(v: &Vec<u8>) -> (c: Vec<u8>)
    ensures
        c@ == v@,
{
    let c = v.clone();
    proof {
        assert forall|i: int| 0 <= i < v@.len() implies c@[i] == v@[i] by {
            assert(cloned::<u8>(v@[i], c@[i]));
        }
        assert(c@ =~= v@);
    }
    c
}

/// Renders a scalar matrix of numeric tokens in the on-disk text form,
/// exactly as [`render_model`] describes with one component per cell.
pub fn save_matrix(m: &Matrix<Vec<u8>>) -> (out: Vec<u8>)
    requires
        m.wf(),
    ensures
        out@ == render_model(
            m.spec_rows() as int,
            m.spec_cols() as int,
            1,
            seq_views(m.spec_data()),
        ),
{
    let (rows, cols) = m.size();
    let data = m.row_major_data();
    proof {
        assert(data@.len() == rows * cols * 1);
    }
    render_matrix_text(rows, cols, 1, data)
}

/// Renders a three-channel matrix of numeric tokens in the on-disk text
/// form, exactly as [`render_model`] describes with three components per
/// cell.
pub fn save_colour_matrix(m: &Matrix<Colour<Vec<u8>>>) -> (out: Vec<u8>)
    requires
        m.wf(),
        m.spec_cols() * 3 <= usize::MAX,
    ensures
        out@ == render_model(
            m.spec_rows() as int,
            m.spec_cols() as int,
            3,
            flat_colour(m.spec_data()),
        ),
{
    let (rows, cols) = m.size();
    let data = m.row_major_data();
    let n: usize = data.len();
    let mut flat: Vec<Vec<u8>> = Vec::new();
    let mut k: usize = 0;
    while k < n
        invariant
            k <= n,
            n == data@.len(),
            data@ == m.spec_data(),
            flat@.len() == 3 * k,
            forall|j: int|
                0 <= j < flat@.len() ==> flat@[j]@ == flat_colour(data@)[j],
        decreases n - k,
    {
        let cell = &data[k];
        flat.push(clone_bytes(&cell.red));
        flat.push(clone_bytes(&cell.green));
        flat.push(clone_bytes(&cell.blue));
        proof {
            assert(flat@[3 * k as int] == flat@[flat@.len() - 3]);
            assert(flat_colour(data@)[3 * k as int] == data@[k as int].red@);
            assert(flat_colour(data@)[3 * k as int + 1] == data@[k as int].green@);
            assert(flat_colour(data@)[3 * k as int + 2] == data@[k as int].blue@);
        }
        k = k + 1;
    }
    proof {
        assert(seq_views(flat@) =~~= flat_colour(m.spec_data()));
        assert(flat@.len() == rows * cols * 3);
    }
    render_matrix_text(rows, cols, 3, &flat)
}

} // verus!

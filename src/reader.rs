//! Reading the lines of one byte range of a file.
//!
//! A range `(start, end]` takes every line that begins after `start` (or at
//! `0` when `start` is `0`) and at or before `end` (`end == 0`: up to the end
//! of the data). Neighbouring ranges `(a, b]` and `(b, c]` thus share no line
//! and drop none, and a line is never split between ranges.

use vstd::prelude::*;
use vstd::slice::slice_subrange;
use crate::aggregator::{add_entry, MeasurementAggregator, Stats};
use crate::parse::{parse_line, ParseError};

verus! {

/// One line of the data: where it begins and its bytes without the newline.
pub struct Line {
    pub start: int,
    pub text: Seq<u8>,
}

/// Position of the first newline at or after `p`, or the length of the data.
pub open spec fn line_end(data: Seq<u8>, p: int) -> int
    decreases data.len() - p,
{
    if p < 0 || p >= data.len() {
        data.len() as int
    } else if data[p] == 10 {
        p
    } else {
        line_end(data, p + 1)
    }
}

/// The lines that begin at `p` and after, `p` being the start of a line.
pub open spec fn lines_from(data: Seq<u8>, p: int) -> Seq<Line>
    decreases data.len() + 1 - p,
{
    let e = line_end(data, p);
    if p < 0 || p >= data.len() || e < p || e > data.len() {
        seq![]
    } else {
        seq![Line { start: p, text: data.subrange(p, e) }] + lines_from(data, e + 1)
    }
}

/// Every line of the data; the last one may lack its newline.
pub open spec fn lines(data: Seq<u8>) -> Seq<Line> {
    lines_from(data, 0)
}

/// Whether a range `(lo, hi]` takes the line.
pub open spec fn selected(x: Line, lo: int, hi: int) -> bool {
    lo < x.start <= hi
}

/// The lower bound of the range that begins at `start`.
pub open spec fn range_lo(start: u64) -> int {
    if start == 0 {
        -1
    } else {
        start as int
    }
}

/// The upper bound of the range that ends at `end` (`0`: the end of the data).
pub open spec fn range_hi(data: Seq<u8>, end: u64) -> int {
    if end == 0 {
        data.len() as int
    } else {
        end as int
    }
}

/// `m` once the value of line `x` is added.
pub open spec fn apply_line(m: Stats, x: Line) -> Stats {
    match parse_line(x.text) {
        Ok((k, v)) => add_entry(m, k, v),
        Err(_) => m,
    }
}

/// `m` once every line of `ls` that `(lo, hi]` takes is added, in order.
pub open spec fn fold_lines(m: Stats, ls: Seq<Line>, lo: int, hi: int) -> Stats
    decreases ls.len(),
{
    if ls.len() == 0 {
        m
    } else {
        fold_lines(
            if selected(ls[0], lo, hi) {
                apply_line(m, ls[0])
            } else {
                m
            },
            ls.drop_first(),
            lo,
            hi,
        )
    }
}

/// Why the first line of `ls` that `(lo, hi]` takes and that does not parse
/// was refused; `None` when they all parse.
pub open spec fn first_error(ls: Seq<Line>, lo: int, hi: int) -> Option<ParseError>
    decreases ls.len(),
{
    if ls.len() == 0 {
        None
    } else if selected(ls[0], lo, hi) && parse_line(ls[0].text) is Err {
        match parse_line(ls[0].text) {
            Err(e) => Some(e),
            Ok(_) => None,
        }
    } else {
        first_error(ls.drop_first(), lo, hi)
    }
}

/// How many lines of `ls` the range `(lo, hi]` takes.
pub open spec fn count_lines(ls: Seq<Line>, lo: int, hi: int) -> nat
    decreases ls.len(),
{
    if ls.len() == 0 {
        0
    } else {
        count_lines(ls.drop_first(), lo, hi) + if selected(ls[0], lo, hi) {
            1nat
        } else {
            0nat
        }
    }
}

/// The statistics of every line of the data.
pub open spec fn file_stats(data: Seq<u8>) -> Stats {
    fold_lines(Map::empty(), lines(data), -1, data.len() as int)
}

/// Why the first line of the data that does not parse was refused.
pub open spec fn file_error(data: Seq<u8>) -> Option<ParseError> {
    first_error(lines(data), -1, data.len() as int)
}

pub proof fn lemma_unfold(data: Seq<u8>, p: int)
    requires
        0 <= p < data.len(),
    ensures
        lines_from(data, p).len() > 0,
        lines_from(data, p)[0] == (Line { start: p, text: data.subrange(p, line_end(data, p)) }),
        lines_from(data, p).drop_first() == lines_from(data, line_end(data, p) + 1),
        p <= line_end(data, p) <= data.len(),
{
    lemma_line_end(data, p);
    let e = line_end(data, p);
    let x = Line { start: p, text: data.subrange(p, e) };
    assert((seq![x] + lines_from(data, e + 1)).drop_first() =~= lines_from(data, e + 1));
}

proof fn lemma_line_end(data: Seq<u8>, p: int)
    requires
        0 <= p <= data.len(),
    ensures
        p <= line_end(data, p) <= data.len(),
        line_end(data, p) < data.len() ==> data[line_end(data, p)] == 10,
        forall|i: int| p <= i < line_end(data, p) ==> data[i] != 10,
    decreases data.len() - p,
{
    if p < data.len() && data[p] != 10 {
        lemma_line_end(data, p + 1);
    }
}

/// The line that holds `s` ends where the line from `p` ends, when `p <= s`
/// and no newline comes between them.
proof fn lemma_line_end_same(data: Seq<u8>, p: int, s: int)
    requires
        0 <= p <= s <= line_end(data, p),
        s < data.len(),
    ensures
        line_end(data, s) == line_end(data, p),
    decreases s - p,
{
    if p < s {
        lemma_line_end(data, p);
        assert(data[p] != 10);
        lemma_line_end_same(data, p + 1, s);
    }
}

/// No line of `lines_from(data, p)` is taken when all of them lie outside the range.
pub proof fn lemma_none_selected(data: Seq<u8>, p: int, m: Stats, lo: int, hi: int)
    requires
        0 <= p,
        p > hi || lo >= data.len() || p >= data.len(),
    ensures
        fold_lines(m, lines_from(data, p), lo, hi) == m,
        first_error(lines_from(data, p), lo, hi) is None,
        count_lines(lines_from(data, p), lo, hi) == 0,
    decreases data.len() + 1 - p,
{
    if p < data.len() {
        lemma_unfold(data, p);
        lemma_none_selected(data, line_end(data, p) + 1, m, lo, hi);
    }
}

/// The lines from `p` up to the line that holds `s` all begin at or before `s`:
/// a range that begins at `s` takes none of them.
proof fn lemma_skip_fragment(data: Seq<u8>, p: int, s: int, m: Stats, hi: int)
    requires
        0 <= p <= s < data.len(),
    ensures
        fold_lines(m, lines_from(data, p), s, hi) == fold_lines(
            m,
            lines_from(data, line_end(data, s) + 1),
            s,
            hi,
        ),
        first_error(lines_from(data, p), s, hi) == first_error(
            lines_from(data, line_end(data, s) + 1),
            s,
            hi,
        ),
        count_lines(lines_from(data, p), s, hi) == count_lines(
            lines_from(data, line_end(data, s) + 1),
            s,
            hi,
        ),
    decreases s - p,
{
    lemma_unfold(data, p);
    let e = line_end(data, p);
    if e >= s {
        lemma_line_end_same(data, p, s);
    } else {
        lemma_skip_fragment(data, e + 1, s, m, hi);
    }
}

/// A range takes at most one line per byte.
pub proof fn lemma_count_bound(data: Seq<u8>, p: int, lo: int, hi: int)
    requires
        0 <= p,
    ensures
        count_lines(lines_from(data, p), lo, hi) <= if p <= data.len() {
            data.len() - p
        } else {
            0
        },
    decreases data.len() + 1 - p,
{
    if p < data.len() {
        lemma_unfold(data, p);
        lemma_count_bound(data, line_end(data, p) + 1, lo, hi);
    }
}

/// Position of the first newline at or after `p`, or the length.
fn find_newline(data: &[u8], p: usize) -> (r: usize)
    requires
        p <= data@.len(),
    ensures
        r as int == line_end(data@, p as int),
{
    let mut i = p;
    while i < data.len() && data[i] != 10
        invariant
            p <= i <= data@.len(),
            line_end(data@, p as int) == line_end(data@, i as int),
        decreases data.len() - i,
    {
        i = i + 1;
    }
    i
}

impl MeasurementAggregator {
    /// Adds every line of `data` that the range `(start, end]` takes (`end ==
    /// 0`: to the end). Where `start` is not `0`, the line that holds byte
    /// `start` belongs to the range before. The first line that does not
    /// parse stops the work and its error is returned; the state is then to
    /// be dropped.
    pub fn process_chunk(&mut self, data: &[u8], start: u64, end: u64) -> (r: Result<
        (),
        ParseError,
    >)
        requires
            old(self).wf(),
            old(self).total() + data@.len() <= u64::MAX,
        ensures
            final(self).wf(),
            r is Ok <==> first_error(lines(data@), range_lo(start), range_hi(data@, end)) is None,
            r is Ok ==> final(self).model() == fold_lines(
                old(self).model(),
                lines(data@),
                range_lo(start),
                range_hi(data@, end),
            ) && final(self).total() == old(self).total() + count_lines(
                lines(data@),
                range_lo(start),
                range_hi(data@, end),
            ),
            r matches Err(e) ==> first_error(lines(data@), range_lo(start), range_hi(data@, end))
                == Some(e),
    {
        let ghost lo = range_lo(start);
        let ghost hi = range_hi(data@, end);
        let ghost m0 = self.model();
        let n = data.len();
        if start >= n as u64 {
            proof {
                lemma_none_selected(data@, 0, m0, lo, hi);
            }
            return Ok(());
        }
        let mut pos: usize = 0;
        if start != 0 {
            let q = find_newline(data, start as usize);
            proof {
                lemma_line_end(data@, start as int);
                lemma_skip_fragment(data@, 0, start as int, m0, hi);
            }
            pos = if q < n {
                q + 1
            } else {
                n
            };
        }
        proof {
            lemma_count_bound(data@, pos as int, lo, hi);
        }
        while pos < n
            invariant
                self.wf(),
                n == data@.len(),
                pos <= n,
                lo == range_lo(start),
                hi == range_hi(data@, end),
                m0 == old(self).model(),
                lo < pos,
                fold_lines(self.model(), lines_from(data@, pos as int), lo, hi) == fold_lines(
                    m0,
                    lines(data@),
                    lo,
                    hi,
                ),
                first_error(lines_from(data@, pos as int), lo, hi) == first_error(
                    lines(data@),
                    lo,
                    hi,
                ),
                self.total() + count_lines(lines_from(data@, pos as int), lo, hi) == old(
                    self,
                ).total() + count_lines(lines(data@), lo, hi),
                count_lines(lines_from(data@, pos as int), lo, hi) <= n - pos,
                old(self).total() + n <= u64::MAX,
                count_lines(lines(data@), lo, hi) <= n,
            decreases n - pos,
        {
            if end != 0 && pos as u64 > end {
                proof {
                    lemma_none_selected(data@, pos as int, self.model(), lo, hi);
                }
                return Ok(());
            }
            let q = find_newline(data, pos);
            proof {
                lemma_unfold(data@, pos as int);
                lemma_count_bound(data@, q + 1, lo, hi);
            }
            let text = slice_subrange(data, pos, q);
            match self.add(text) {
                Ok(()) => {},
                Err(e) => {
                    return Err(e);
                },
            }
            pos = if q < n {
                q + 1
            } else {
                n
            };
        }
        proof {
            lemma_none_selected(data@, n as int, self.model(), lo, hi);
        }
        Ok(())
    }
}

} // verus!

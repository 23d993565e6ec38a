//! Cutting a file into byte ranges, and putting the ranges' statistics back
//! together. Each range can be aggregated on its own (by another thread, in
//! any order); merging the results gives the statistics of the whole file.

use vstd::prelude::*;

use crate::aggregator::{add_entry, lemma_merge_empty, merge_maps, MeasurementAggregator, Stats};
use crate::format::render;
use crate::parse::{parse_line, ParseError};
use crate::reader::{
    apply_line, count_lines, file_error, Line, file_stats, first_error, fold_lines, lemma_unfold,
    lemma_none_selected, line_end, lines, lines_from, range_hi, range_lo, selected,
};

verus! {

/// The smallest range handed to a worker, so that small files are not cut
/// into tiny ranges.
pub const MIN_CHUNK_SIZE: u64 = 1024;

/// One range of the file: `(start, end]`, `end == 0` meaning to the end.
#[derive(Clone, Copy, Debug, PartialEq, Eq, Structural)]
pub struct Task {
    pub start: u64,
    pub end: u64,
}

/// `max(min_chunk, size / workers)`.
pub open spec fn chunk_size(size: int, workers: int, min_chunk: int) -> int {
    if size / workers > min_chunk {
        size / workers
    } else {
        min_chunk
    }
}

/// `ceil(size / c)`.
pub open spec fn chunk_count(size: int, c: int) -> int {
    size / c + if size % c == 0 {
        0int
    } else {
        1int
    }
}

/// Range `i` of `n`: `(i * c, (i + 1) * c]`, the last one open-ended.
pub open spec fn task_at(c: int, n: int, i: int) -> Task {
    Task {
        start: (i * c) as u64,
        end: if i == n - 1 {
            0
        } else {
            ((i + 1) * c) as u64
        },
    }
}

/// The ranges for a file of `file_size` bytes and `workers` workers.
pub fn plan_chunks(file_size: u64, workers: u64, min_chunk: u64) -> (r: Vec<Task>)
    requires
        workers >= 1,
        min_chunk >= 1,
    ensures
        ({
            let c = chunk_size(file_size as int, workers as int, min_chunk as int);
            let n = chunk_count(file_size as int, c);
            &&& r@.len() == n
            &&& forall|i: int| 0 <= i < n ==> #[trigger] r@[i] == task_at(c, n, i)
            &&& n >= 1 ==> (n - 1) * c < file_size
        }),
{
    let q = file_size / workers;
    let c: u64 = if q > min_chunk {
        q
    } else {
        min_chunk
    };
    let mut n: u64 = file_size / c;
    if file_size % c != 0 {
        proof {
            vstd::arithmetic::div_mod::lemma_fundamental_div_mod(file_size as int, c as int);
            assert(n < u64::MAX) by (nonlinear_arith)
                requires
                    file_size == c * n + file_size % c,
                    c >= 2,
                    file_size <= u64::MAX,
            ;
        }
        n = n + 1;
    }
    proof {
        lemma_last_start(file_size as int, c as int);
    }
    let mut tasks: Vec<Task> = Vec::new();
    let mut i: u64 = 0;
    let mut start: u64 = 0;
    while i < n
        invariant
            c >= 1,
            n == chunk_count(file_size as int, c as int),
            c == chunk_size(file_size as int, workers as int, min_chunk as int),
            n >= 1 ==> (n - 1) * c < file_size,
            i <= n,
            i < n ==> start == i * c,
            tasks@.len() == i,
            forall|j: int| 0 <= j < i ==> #[trigger] tasks@[j] == task_at(c as int, n as int, j),
        decreases n - i,
    {
        proof {
            assert(i * c <= (n - 1) * c) by (nonlinear_arith)
                requires
                    i <= n - 1,
                    c >= 1,
            ;
        }
        let end = if i == n - 1 {
            0
        } else {
            proof {
                assert((i + 1) * c <= (n - 1) * c) by (nonlinear_arith)
                    requires
                        i + 1 <= n - 1,
                        c >= 1,
                ;
                assert((i + 1) * c == i * c + c) by (nonlinear_arith);
            }
            start + c
        };
        let ghost i0 = i;
        tasks.push(Task { start, end });
        i = i + 1;
        if i < n {
            proof {
                assert((i0 + 1) * c == i0 * c + c) by (nonlinear_arith);
                assert(i * c <= (n - 1) * c) by (nonlinear_arith)
                    requires
                        i <= n - 1,
                        c >= 1,
                ;
            }
            start = start + c;
        }
    }
    tasks
}

/// The last range begins inside the file.
proof fn lemma_last_start(size: int, c: int)
    requires
        size >= 0,
        c >= 1,
    ensures
        chunk_count(size, c) >= 1 ==> (chunk_count(size, c) - 1) * c < size,
        chunk_count(size, c) >= 0,
        size > 0 ==> chunk_count(size, c) >= 1,
{
    vstd::arithmetic::div_mod::lemma_fundamental_div_mod(size, c);
    let q = size / c;
    let r = size % c;
    assert(q >= 0) by (nonlinear_arith)
        requires
            size == c * q + r,
            0 <= r < c,
            size >= 0,
    ;
    if r == 0 {
        if q == 0 {
            assert(size == 0) by (nonlinear_arith)
                requires
                    size == c * q + r,
                    q == 0,
                    r == 0,
            ;
        }
        if q >= 1 {
            assert((q - 1) * c < size) by (nonlinear_arith)
                requires
                    size == c * q,
                    c >= 1,
            ;
        }
    } else {
        assert(q * c < size) by (nonlinear_arith)
            requires
                size == c * q + r,
                r > 0,
        ;
    }
}

/// Merging the statistics of two groups of lines does not depend on their order.
pub proof fn merge_maps_commutes(a: Stats, b: Stats)
    ensures
        merge_maps(a, b) == merge_maps(b, a),
{
    assert(merge_maps(a, b) =~= merge_maps(b, a));
}

/// Merging the statistics of three groups of lines does not depend on how they are grouped.
pub proof fn merge_maps_associates(a: Stats, b: Stats, c: Stats)
    ensures
        merge_maps(merge_maps(a, b), c) == merge_maps(a, merge_maps(b, c)),
{
    assert(merge_maps(merge_maps(a, b), c) =~= merge_maps(a, merge_maps(b, c)));
}

/// Partial results that arrive in either order give the same final statistics,
/// hence the same output.
pub proof fn arrival_order_irrelevant(r: Stats, a: Stats, b: Stats)
    ensures
        merge_maps(merge_maps(r, a), b) == merge_maps(merge_maps(r, b), a),
        render(merge_maps(merge_maps(r, a), b)) == render(merge_maps(merge_maps(r, b), a)),
{
    merge_maps_associates(r, a, b);
    merge_maps_associates(r, b, a);
    merge_maps_commutes(a, b);
}

/// Adding one line's value is merging with that line's statistics.
proof fn lemma_apply_is_merge(m: Stats, x: Line)
    ensures
        apply_line(m, x) == merge_maps(m, apply_line(Map::empty(), x)),
{
    match parse_line(x.text) {
        Ok((k, v)) => {
            assert(add_entry(m, k, v) =~= merge_maps(m, add_entry(Map::empty(), k, v)));
        },
        Err(_) => {
            lemma_merge_empty(m);
        },
    }
}

/// Folding lines into `a` is merging `a` with the statistics of those lines.
proof fn lemma_fold_is_merge(a: Stats, ls: Seq<Line>, lo: int, hi: int)
    ensures
        fold_lines(a, ls, lo, hi) == merge_maps(a, fold_lines(Map::empty(), ls, lo, hi)),
    decreases ls.len(),
{
    if ls.len() == 0 {
        lemma_merge_empty(a);
    } else {
        let x = ls[0];
        let rest = ls.drop_first();
        let e = Map::<Seq<u8>, crate::aggregate::Summary>::empty();
        lemma_fold_is_merge(e, rest, lo, hi);
        if selected(x, lo, hi) {
            let xm = apply_line(e, x);
            lemma_fold_is_merge(apply_line(a, x), rest, lo, hi);
            lemma_fold_is_merge(xm, rest, lo, hi);
            lemma_apply_is_merge(a, x);
            merge_maps_associates(a, xm, fold_lines(e, rest, lo, hi));
        } else {
            lemma_fold_is_merge(a, rest, lo, hi);
        }
    }
}

/// Statistics of the lines that range `(lo, hi]` takes.
pub open spec fn range_stats(data: Seq<u8>, p: int, lo: int, hi: int) -> Stats {
    fold_lines(Map::empty(), lines_from(data, p), lo, hi)
}

pub open spec fn or_else(a: Option<ParseError>, b: Option<ParseError>) -> Option<ParseError> {
    match a {
        Some(e) => Some(e),
        None => b,
    }
}

/// Two neighbouring ranges `(lo, mid]` and `(mid, hi]` together take exactly
/// the lines of `(lo, hi]`: their statistics merge to those of the whole, their
/// counts add up, and the first error of the whole is the first of the two.
pub proof fn ranges_partition(data: Seq<u8>, p: int, lo: int, mid: int, hi: int)
    requires
        0 <= p,
        lo <= mid <= hi,
    ensures
        range_stats(data, p, lo, hi) == merge_maps(
            range_stats(data, p, lo, mid),
            range_stats(data, p, mid, hi),
        ),
        count_lines(lines_from(data, p), lo, hi) == count_lines(lines_from(data, p), lo, mid)
            + count_lines(lines_from(data, p), mid, hi),
        first_error(lines_from(data, p), lo, hi) == or_else(
            first_error(lines_from(data, p), lo, mid),
            first_error(lines_from(data, p), mid, hi),
        ),
    decreases data.len() + 1 - p,
{
    let e = Map::<Seq<u8>, crate::aggregate::Summary>::empty();
    if p >= data.len() {
        lemma_merge_empty(e);
    } else {
        lemma_unfold(data, p);
        let ls = lines_from(data, p);
        let x = ls[0];
        let q = line_end(data, p) + 1;
        let rest = lines_from(data, q);
        ranges_partition(data, q, lo, mid, hi);
        let xm = apply_line(e, x);
        let r_lh = fold_lines(e, rest, lo, hi);
        let r_lm = fold_lines(e, rest, lo, mid);
        let r_mh = fold_lines(e, rest, mid, hi);
        if selected(x, lo, mid) {
            lemma_fold_is_merge(xm, rest, lo, hi);
            lemma_fold_is_merge(xm, rest, lo, mid);
            merge_maps_associates(xm, r_lm, r_mh);
        } else if selected(x, mid, hi) {
            lemma_fold_is_merge(xm, rest, lo, hi);
            lemma_fold_is_merge(xm, rest, mid, hi);
            merge_maps_associates(xm, r_lm, r_mh);
            merge_maps_commutes(xm, r_lm);
            merge_maps_associates(r_lm, xm, r_mh);
            lemma_none_selected(data, q, e, lo, mid);
        }
    }
}

/// A range that spans the whole data takes every line.
proof fn lemma_all_selected(data: Seq<u8>, p: int)
    requires
        0 <= p,
    ensures
        count_lines(lines_from(data, p), -1, data.len() as int) == lines_from(data, p).len(),
    decreases data.len() + 1 - p,
{
    if p < data.len() {
        lemma_unfold(data, p);
        lemma_all_selected(data, line_end(data, p) + 1);
    }
}

/// Aggregates `data` range by range, as the plan for `workers` workers cuts
/// it, merging each range's result into the whole. The result does not
/// depend on the plan: it holds the statistics of every line, and counts
/// every line once.
pub fn aggregate_chunks(data: &[u8], workers: u64, min_chunk: u64) -> (r: Result<
    MeasurementAggregator,
    ParseError,
>)
    requires
        workers >= 1,
        min_chunk >= 1,
    ensures
        r is Ok <==> file_error(data@) is None,
        r matches Ok(a) ==> a.wf() && a.model() == file_stats(data@) && a.total() == lines(
            data@,
        ).len(),
        r matches Err(e) ==> file_error(data@) == Some(e),
{
    let n_bytes = data.len();
    let size = n_bytes as u64;
    let tasks = plan_chunks(size, workers, min_chunk);
    let ghost c = chunk_size(size as int, workers as int, min_chunk as int);
    let ghost n = tasks@.len() as int;
    let ghost len = data@.len() as int;
    let ghost e = Map::<Seq<u8>, crate::aggregate::Summary>::empty();
    let mut acc = MeasurementAggregator::new();
    let mut i: usize = 0;
    let ghost mut covered: int = -1;
    proof {
        lemma_none_selected(data@, 0, e, -1, -1);
        lemma_count_all(data@);
    }
    while i < tasks.len()
        invariant
            acc.wf(),
            len == data@.len(),
            len <= u64::MAX,
            n == tasks@.len(),
            c >= 1,
            forall|j: int| 0 <= j < n ==> #[trigger] tasks@[j] == task_at(c, n, j),
            n >= 1 ==> (n - 1) * c < len,
            i <= n,
            covered == if i == 0 {
                -1
            } else if i == n {
                len
            } else {
                i * c
            },
            -1 <= covered <= len,
            acc.model() == range_stats(data@, 0, -1, covered),
            first_error(lines(data@), -1, covered) is None,
            acc.total() == count_lines(lines(data@), -1, covered),
            count_lines(lines(data@), -1, len) <= len,
        decreases n - i,
    {
        let t = tasks[i];
        let ghost lo = range_lo(t.start);
        let ghost hi = range_hi(data@, t.end);
        proof {
            assert(t == task_at(c, n, i as int));
            assert(0 <= i * c <= (n - 1) * c) by (nonlinear_arith)
                requires
                    0 <= i <= n - 1,
                    c >= 1,
            ;
            if i > 0 {
                assert(i * c > 0) by (nonlinear_arith)
                    requires
                        i >= 1,
                        c >= 1,
                ;
            }
            assert(lo == covered);
            if i + 1 < n {
                assert((i + 1) * c <= (n - 1) * c) by (nonlinear_arith)
                    requires
                        i + 1 <= n - 1,
                        c >= 1,
                ;
                assert((i + 1) * c < len);
                assert((i + 1) * c >= 1) by (nonlinear_arith)
                    requires
                        i >= 0,
                        c >= 1,
                ;
                assert(hi == (i + 1) * c);
                assert(i * c <= (i + 1) * c) by (nonlinear_arith)
                    requires
                        c >= 1,
                ;
            } else {
                assert(hi == len);
            }
            ranges_partition(data@, 0, -1, covered, hi);
            ranges_partition(data@, 0, -1, hi, len);
        }
        let mut part = MeasurementAggregator::new();
        match part.process_chunk(data, t.start, t.end) {
            Ok(()) => {},
            Err(err) => {
                proof {
                    ranges_partition(data@, 0, covered, hi, len);
                    ranges_partition(data@, 0, -1, covered, len);
                }
                return Err(err);
            },
        }
        proof {
            lemma_fold_is_merge(e, lines(data@), lo, hi);
            lemma_merge_empty(part.model());
            lemma_merge_empty(range_stats(data@, 0, lo, hi));
        }
        acc.merge(&part);
        i = i + 1;
        proof {
            covered = hi;
            if i < n {
                assert(covered == i * c);
            }
        }
    }
    proof {
        if n == 0 {
            lemma_empty_plan(data@, c);
            lemma_none_selected(data@, 0, e, -1, len);
        }
        lemma_all_selected(data@, 0);
    }
    Ok(acc)
}

proof fn lemma_count_all(data: Seq<u8>)
    ensures
        count_lines(lines(data), -1, data.len() as int) <= data.len(),
{
    crate::reader::lemma_count_bound(data, 0, -1, data.len() as int);
}

/// A plan without ranges comes only from empty data.
proof fn lemma_empty_plan(data: Seq<u8>, c: int)
    requires
        c >= 1,
        chunk_count(data.len() as int, c) == 0,
    ensures
        data.len() == 0,
{
    lemma_last_start(data.len() as int, c);
}

/// The output for `data`: `{key=min/avg/max, ...}` and a newline, with the
/// statistics of every line, keys in ascending byte order. The file is cut
/// into ranges for `workers` workers; the output does not depend on that
/// number. The first line that does not parse is reported instead.
pub fn process_file(data: &[u8], workers: u64) -> (r: Result<Vec<u8>, ParseError>)
    requires
        workers >= 1,
    ensures
        r is Ok <==> file_error(data@) is None,
        r matches Ok(out) ==> out@ == render(file_stats(data@)),
        r matches Err(e) ==> file_error(data@) == Some(e),
{
    match aggregate_chunks(data, workers, MIN_CHUNK_SIZE) {
        Ok(acc) => {
            let mut out: Vec<u8> = Vec::new();
            acc.write(&mut out);
            assert(out@ =~= render(file_stats(data@)));
            Ok(out)
        },
        Err(e) => Err(e),
    }
}

} // verus!

use vstd::prelude::*;

use crate::error::Error;
use crate::spectrogram::{grid_is_valid, is_nan, is_nan_bits, level, level_of, rows_view, Spectrogram};

verus! {

/// Whether cell `(t2, k2)` lies in the grid and in the window of half-width `half`
/// centred on `(t, k)`; the window is truncated at the grid's edges.
pub open spec fn in_kernel(
    rows: nat,
    cols: nat,
    t: int,
    k: int,
    half: int,
    t2: int,
    k2: int,
) -> bool {
    &&& 0 <= t2 < rows
    &&& 0 <= k2 < cols
    &&& t - half <= t2 <= t + half
    &&& k - half <= k2 <= k + half
}

/// Whether `v` is at least every value in the window centred on `(t, k)`.
pub open spec fn bounds_window(g: Seq<Seq<u32>>, cols: nat, t: int, k: int, half: int, v: u32) -> bool {
    forall|t2: int, k2: int|
        in_kernel(g.len(), cols, t, k, half, t2, k2) ==> level(#[trigger] g[t2][k2]) <= level(v)
}

/// Whether `v` occurs in the window centred on `(t, k)`.
pub open spec fn occurs_in_window(g: Seq<Seq<u32>>, cols: nat, t: int, k: int, half: int, v: u32) -> bool {
    exists|t2: int, k2: int|
        in_kernel(g.len(), cols, t, k, half, t2, k2) && #[trigger] g[t2][k2] == v
}

/// Whether cell `(t, k)` holds the maximum of its window.
pub open spec fn is_local_max(g: Seq<Seq<u32>>, cols: nat, t: int, k: int, half: int) -> bool {
    bounds_window(g, cols, t, k, half, g[t][k])
}

/// Whether cell `(t, k)` is a peak: the maximum of its window, above the threshold.
pub open spec fn is_peak(
    g: Seq<Seq<u32>>,
    cols: nat,
    t: int,
    k: int,
    half: int,
    threshold: u32,
) -> bool {
    is_local_max(g, cols, t, k, half) && level(g[t][k]) > level(threshold)
}

/// Row-major order of cells.
pub open spec fn precedes(p: (usize, usize), q: (usize, usize)) -> bool {
    p.0 < q.0 || (p.0 == q.0 && p.1 < q.1)
}

/// Whether `r` lists, in row-major order and once each, exactly the cells of a
/// `rows` x `cols` grid that satisfy `pred`.
pub open spec fn lists_cells_where(
    r: Seq<(usize, usize)>,
    rows: nat,
    cols: nat,
    pred: spec_fn(int, int) -> bool,
) -> bool {
    &&& forall|i: int, j: int| 0 <= i < j < r.len() ==> precedes(#[trigger] r[i], #[trigger] r[j])
    &&& forall|i: int|
        0 <= i < r.len() ==> {
            &&& (#[trigger] r[i]).0 < rows
            &&& r[i].1 < cols
            &&& pred(r[i].0 as int, r[i].1 as int)
        }
    &&& forall|t: int, k: int|
        0 <= t < rows && 0 <= k < cols && #[trigger] pred(t, k) ==> r.contains(
            (t as usize, k as usize),
        )
}

/// The peaks of `g` for a kernel of side `kernel_size` and a magnitude threshold.
pub open spec fn peak_cells(
    r: Seq<(usize, usize)>,
    g: Seq<Seq<u32>>,
    cols: nat,
    kernel_size: nat,
    threshold: u32,
) -> bool {
    lists_cells_where(
        r,
        g.len(),
        cols,
        |t: int, k: int| is_peak(g, cols, t, k, (kernel_size / 2) as int, threshold),
    )
}

/// The window of half-width `width / 2` centred on row `t`, column `k`, truncated at
/// the edges: first row, last row, first column, last column.
fn get_square(rows: usize, cols: usize, t: usize, k: usize, width: usize) -> (r: (
    usize,
    usize,
    usize,
    usize,
))
    requires
        t < rows,
        k < cols,
    ensures
        r.0 == (if t < width / 2 {
            0
        } else {
            t - width / 2
        }),
        r.1 == (if t + width / 2 >= rows {
            rows - 1
        } else {
            t + width / 2
        }),
        r.2 == (if k < width / 2 {
            0
        } else {
            k - width / 2
        }),
        r.3 == (if k + width / 2 >= cols {
            cols - 1
        } else {
            k + width / 2
        }),
        r.0 <= t <= r.1 < rows,
        r.2 <= k <= r.3 < cols,
{
    let half = width / 2;
    let min_t = if t < half {
        0
    } else {
        t - half
    };
    let max_t = if rows - 1 - t < half {
        rows - 1
    } else {
        t + half
    };
    let min_k = if k < half {
        0
    } else {
        k - half
    };
    let max_k = if cols - 1 - k < half {
        cols - 1
    } else {
        k + half
    };
    (min_t, max_t, min_k, max_k)
}

/// The position of a largest value among rows `t_lo..=t_hi` and columns
/// `k_lo..=k_hi` of `spec`.
fn argmax_in(spec: &Spectrogram, t_lo: usize, t_hi: usize, k_lo: usize, k_hi: usize) -> (r: (
    usize,
    usize,
))
    requires
        t_lo <= t_hi < spec@.len(),
        k_lo <= k_hi < spec.cols(),
    ensures
        t_lo <= r.0 <= t_hi,
        k_lo <= r.1 <= k_hi,
        forall|t2: int, k2: int|
            t_lo <= t2 <= t_hi && k_lo <= k2 <= k_hi ==> level(#[trigger] spec@[t2][k2]) <= level(
                spec@[r.0 as int][r.1 as int],
            ),
{
    let rows = spec.nrows();
    let cols = spec.ncols();
    let mut best_t = t_lo;
    let mut best_k = k_lo;
    let mut best = level_of(spec.get(t_lo, k_lo));
    let mut t = t_lo;
    while t <= t_hi
        invariant
            t_lo <= t <= t_hi + 1,
            t_hi < spec@.len(),
            rows == spec@.len(),
            cols == spec.cols(),
            k_lo <= k_hi < spec.cols(),
            t_lo <= best_t <= t_hi,
            k_lo <= best_k <= k_hi,
            best == level(spec@[best_t as int][best_k as int]),
            forall|t2: int, k2: int|
                t_lo <= t2 < t && k_lo <= k2 <= k_hi ==> level(#[trigger] spec@[t2][k2]) <= best,
        decreases t_hi + 1 - t,
    {
        let mut k = k_lo;
        while k <= k_hi
            invariant
                t_lo <= t <= t_hi,
                t_hi < spec@.len(),
                rows == spec@.len(),
                cols == spec.cols(),
                k_lo <= k <= k_hi + 1,
                k_hi < spec.cols(),
                t_lo <= best_t <= t_hi,
                k_lo <= best_k <= k_hi,
                best == level(spec@[best_t as int][best_k as int]),
                forall|t2: int, k2: int|
                    t_lo <= t2 < t && k_lo <= k2 <= k_hi ==> level(#[trigger] spec@[t2][k2]) <= best,
                forall|k2: int| k_lo <= k2 < k ==> level(#[trigger] spec@[t as int][k2]) <= best,
            decreases k_hi + 1 - k,
        {
            let v = level_of(spec.get(t, k));
            if v > best {
                best = v;
                best_t = t;
                best_k = k;
            }
            k = k + 1;
        }
        t = t + 1;
    }
    (best_t, best_k)
}

/// The maximum filter of `spec`: each cell becomes the largest value of the window of
/// side `kernel_size` centred on it, truncated at the edges.
pub fn max_filter(spec: &Spectrogram, kernel_size: usize) -> (r: Spectrogram)
    ensures
        r@.len() == spec@.len(),
        r.cols() == spec.cols(),
        forall|t: int, k: int|
            0 <= t < spec@.len() && 0 <= k < spec.cols() ==> {
                &&& bounds_window(spec@, spec.cols(), t, k, (kernel_size / 2) as int, r@[t][k])
                &&& occurs_in_window(
                    spec@,
                    spec.cols(),
                    t,
                    k,
                    (kernel_size / 2) as int,
                    #[trigger] r@[t][k],
                )
            },
{
    let rows = spec.nrows();
    let cols = spec.ncols();
    let ghost g = spec@;
    let ghost half = (kernel_size / 2) as int;
    let mut out: Vec<Vec<u32>> = Vec::new();
    for t in 0..rows
        invariant
            rows == g.len(),
            cols == spec.cols(),
            g == spec@,
            half == kernel_size / 2,
            grid_is_valid(g, cols as nat),
            out@.len() == t,
            forall|i: int| 0 <= i < t ==> (#[trigger] out@[i])@.len() == cols,
            forall|i: int, k: int|
                0 <= i < t && 0 <= k < cols ==> {
                    &&& bounds_window(g, cols as nat, i, k, half, out@[i]@[k])
                    &&& occurs_in_window(g, cols as nat, i, k, half, #[trigger] out@[i]@[k])
                },
    {
        let mut row: Vec<u32> = Vec::new();
        for k in 0..cols
            invariant
                t < rows,
                rows == g.len(),
                cols == spec.cols(),
                g == spec@,
                half == kernel_size / 2,
                row@.len() == k,
                forall|k1: int|
                    0 <= k1 < k ==> {
                        &&& bounds_window(g, cols as nat, t as int, k1, half, row@[k1])
                        &&& occurs_in_window(g, cols as nat, t as int, k1, half, #[trigger] row@[k1])
                    },
        {
            let (t_lo, t_hi, k_lo, k_hi) = get_square(rows, cols, t, k, kernel_size);
            let (bt, bk) = argmax_in(spec, t_lo, t_hi, k_lo, k_hi);
            let v = spec.get(bt, bk);
            assert(in_kernel(g.len(), cols as nat, t as int, k as int, half, bt as int, bk as int));
            assert(bounds_window(g, cols as nat, t as int, k as int, half, v));
            row.push(v);
        }
        out.push(row);
    }
    proof {
        assert forall|i: int, k: int| 0 <= i < rows && 0 <= k < cols implies !is_nan_bits(
            #[trigger] rows_view(out@)[i][k],
        ) by {
            assert(rows_view(out@)[i] == out@[i]@);
            let v = out@[i]@[k];
            assert(occurs_in_window(g, cols as nat, i, k, half, v));
            let (t2, k2) = choose|t2: int, k2: int|
                in_kernel(g.len(), cols as nat, i, k, half, t2, k2) && #[trigger] g[t2][k2] == v;
            assert(g[t2].len() == cols);
        }
        assert(grid_is_valid(rows_view(out@), cols as nat));
    }
    match Spectrogram::from_rows(out, cols) {
        Ok(s) => {
            assert forall|t: int, k: int| 0 <= t < spec@.len() && 0 <= k < spec.cols() implies {
                &&& bounds_window(spec@, spec.cols(), t, k, (kernel_size / 2) as int, s@[t][k])
                &&& occurs_in_window(
                    spec@,
                    spec.cols(),
                    t,
                    k,
                    (kernel_size / 2) as int,
                    #[trigger] s@[t][k],
                )
            } by {
                assert(s@[t] == out@[t]@);
            }
            s
        },
        Err(_) => {
            assert(false);
            Spectrogram::from_rows(Vec::new(), cols).unwrap()
        },
    }
}

/// The cells, in row-major order, where `a` and `b` hold equal values.
pub fn find_equal(a: &Spectrogram, b: &Spectrogram) -> (r: Vec<(usize, usize)>)
    requires
        a@.len() == b@.len(),
        a.cols() == b.cols(),
    ensures
        lists_cells_where(
            r@,
            a@.len(),
            a.cols(),
            |t: int, k: int| level(a@[t][k]) == level(b@[t][k]),
        ),
{
    let rows = a.nrows();
    let cols = a.ncols();
    let ghost pred = |t: int, k: int| level(a@[t][k]) == level(b@[t][k]);
    let mut locations: Vec<(usize, usize)> = Vec::new();
    for t in 0..rows
        invariant
            rows == a@.len(),
            rows == b@.len(),
            cols == a.cols(),
            cols == b.cols(),
            pred == (|t: int, k: int| level(a@[t][k]) == level(b@[t][k])),
            forall|i: int, j: int|
                0 <= i < j < locations@.len() ==> precedes(
                    #[trigger] locations@[i],
                    #[trigger] locations@[j],
                ),
            forall|i: int|
                0 <= i < locations@.len() ==> {
                    &&& (#[trigger] locations@[i]).0 < t
                    &&& locations@[i].1 < cols
                    &&& pred(locations@[i].0 as int, locations@[i].1 as int)
                },
            forall|t2: int, k2: int|
                0 <= t2 < t && 0 <= k2 < cols && #[trigger] pred(t2, k2) ==> locations@.contains(
                    (t2 as usize, k2 as usize),
                ),
    {
        for k in 0..cols
            invariant
                t < rows,
                rows == a@.len(),
                rows == b@.len(),
                cols == a.cols(),
                cols == b.cols(),
                pred == (|t: int, k: int| level(a@[t][k]) == level(b@[t][k])),
                forall|i: int, j: int|
                    0 <= i < j < locations@.len() ==> precedes(
                        #[trigger] locations@[i],
                        #[trigger] locations@[j],
                    ),
                forall|i: int|
                    0 <= i < locations@.len() ==> {
                        &&& precedes(#[trigger] locations@[i], (t, k))
                        &&& locations@[i].0 < rows
                        &&& locations@[i].1 < cols
                        &&& pred(locations@[i].0 as int, locations@[i].1 as int)
                    },
                forall|t2: int, k2: int|
                    0 <= t2 < rows && 0 <= k2 < cols && (t2 < t || (t2 == t && k2 < k))
                        && #[trigger] pred(t2, k2) ==> locations@.contains(
                        (t2 as usize, k2 as usize),
                    ),
        {
            if level_of(a.get(t, k)) == level_of(b.get(t, k)) {
                let ghost before = locations@;
                locations.push((t, k));
                proof {
                    assert forall|t2: int, k2: int|
                        0 <= t2 < rows && 0 <= k2 < cols && (t2 < t || (t2 == t && k2 < k + 1))
                            && #[trigger] pred(t2, k2) implies locations@.contains(
                        (t2 as usize, k2 as usize),
                    ) by {
                        if t2 == t && k2 == k {
                            assert(locations@[before.len() as int] == (t2 as usize, k2 as usize));
                        } else {
                            let i = choose|i: int|
                                0 <= i < before.len() && before[i] == (t2 as usize, k2 as usize);
                            assert(locations@[i] == before[i]);
                        }
                    }
                }
            }
        }
    }
    locations
}

/// The peaks of `spec`: the cells, in row-major order, that equal the maximum of the
/// window of side `kernel_size` centred on them (truncated at the edges) and exceed
/// `threshold`, where `threshold` and the cells are single-precision bit patterns.
/// Fails with `Config` when `kernel_size` is zero or `threshold` is NaN, and otherwise
/// with `Shape` when the spectrogram has no cell.
pub fn find_peaks(spec: &Spectrogram, kernel_size: usize, threshold: u32) -> (r: Result<
    Vec<(usize, usize)>,
    Error,
>)
    ensures
        (kernel_size == 0 || is_nan_bits(threshold)) ==> r == Err::<Vec<(usize, usize)>, Error>(
            Error::Config,
        ),
        (kernel_size > 0 && !is_nan_bits(threshold) && (spec@.len() == 0 || spec.cols() == 0))
            ==> r == Err::<Vec<(usize, usize)>, Error>(Error::Shape),
        (kernel_size > 0 && !is_nan_bits(threshold) && spec@.len() > 0 && spec.cols() > 0) ==> (
        r matches Ok(p) && peak_cells(p@, spec@, spec.cols(), kernel_size as nat, threshold)),
{
    if kernel_size == 0 || is_nan(threshold) {
        return Err(Error::Config);
    }
    let rows = spec.nrows();
    let cols = spec.ncols();
    if rows == 0 || cols == 0 {
        return Err(Error::Shape);
    }
    let ghost g = spec@;
    let ghost half = (kernel_size / 2) as int;
    let filtered = max_filter(spec, kernel_size);
    let candidates = find_equal(spec, &filtered);
    let ghost peak = |t: int, k: int| is_peak(g, cols as nat, t, k, half, threshold);
    proof {
        assert forall|t: int, k: int| 0 <= t < rows && 0 <= k < cols implies (level(g[t][k])
            == level(filtered@[t][k]) <==> is_local_max(g, cols as nat, t, k, half)) by {
            let m = filtered@[t][k];
            assert(bounds_window(g, cols as nat, t, k, half, m));
            assert(occurs_in_window(g, cols as nat, t, k, half, m));
            assert(in_kernel(g.len(), cols as nat, t, k, half, t, k));
            let (t2, k2) = choose|t2: int, k2: int|
                in_kernel(g.len(), cols as nat, t, k, half, t2, k2) && #[trigger] g[t2][k2] == m;
            if is_local_max(g, cols as nat, t, k, half) {
                assert(level(g[t2][k2]) <= level(g[t][k]));
            }
            if level(g[t][k]) == level(m) {
                assert forall|t3: int, k3: int|
                    in_kernel(g.len(), cols as nat, t, k, half, t3, k3) implies level(
                    #[trigger] g[t3][k3],
                ) <= level(g[t][k]) by {}
            }
        }
    }
    let level_threshold = level_of(threshold);
    let mut peaks: Vec<(usize, usize)> = Vec::new();
    let n = candidates.len();
    for i in 0..n
        invariant
            n == candidates@.len(),
            rows == g.len(),
            cols == spec.cols(),
            g == spec@,
            level_threshold == level(threshold),
            half == kernel_size / 2,
            peak == (|t: int, k: int| is_peak(g, cols as nat, t, k, half, threshold)),
            lists_cells_where(
                candidates@,
                rows as nat,
                cols as nat,
                |t: int, k: int| level(g[t][k]) == level(filtered@[t][k]),
            ),
            forall|t: int, k: int|
                0 <= t < rows && 0 <= k < cols ==> (level(g[t][k]) == level(filtered@[t][k])
                    <==> is_local_max(g, cols as nat, t, k, half)),
            forall|a: int, j: int|
                0 <= a < peaks@.len() && i <= j < n ==> precedes(
                    #[trigger] peaks@[a],
                    #[trigger] candidates@[j],
                ),
            forall|a: int, b: int| 0 <= a < b < peaks@.len() ==> precedes(#[trigger] peaks@[a], #[trigger] peaks@[b]),
            forall|a: int|
                0 <= a < peaks@.len() ==> {
                    &&& (#[trigger] peaks@[a]).0 < rows
                    &&& peaks@[a].1 < cols
                    &&& peak(peaks@[a].0 as int, peaks@[a].1 as int)
                },
            forall|j: int|
                0 <= j < i && #[trigger] peak(candidates@[j].0 as int, candidates@[j].1 as int)
                    ==> peaks@.contains(candidates@[j]),
    {
        let (t, k) = candidates[i];
        assert(candidates@[i as int] == (t, k));
        if level_of(spec.get(t, k)) > level_threshold {
            let ghost before = peaks@;
            peaks.push((t, k));
            proof {
                assert forall|j: int|
                    0 <= j < i + 1 && #[trigger] peak(
                        candidates@[j].0 as int,
                        candidates@[j].1 as int,
                    ) implies peaks@.contains(candidates@[j]) by {
                    if j == i {
                        assert(peaks@[before.len() as int] == candidates@[j]);
                    } else {
                        let a = choose|a: int| 0 <= a < before.len() && before[a] == candidates@[j];
                        assert(peaks@[a] == before[a]);
                    }
                }
                assert forall|a: int, j: int|
                    0 <= a < peaks@.len() && i + 1 <= j < n implies precedes(
                    #[trigger] peaks@[a],
                    #[trigger] candidates@[j],
                ) by {
                    if a < before.len() {
                        assert(precedes(before[a], candidates@[i as int]));
                        assert(precedes(candidates@[i as int], candidates@[j]));
                    } else {
                        assert(precedes(candidates@[i as int], candidates@[j]));
                    }
                }
            }
        }
    }
    proof {
        assert forall|t: int, k: int|
            0 <= t < rows && 0 <= k < cols && #[trigger] peak(t, k) implies peaks@.contains(
            (t as usize, k as usize),
        ) by {
            assert(is_peak(g, cols as nat, t, k, half, threshold));
            assert(level(g[t][k]) == level(filtered@[t][k]));
            let eq = |t: int, k: int| level(g[t][k]) == level(filtered@[t][k]);
            assert(eq(t, k));
            assert(candidates@.contains((t as usize, k as usize)));
            let j = choose|j: int| 0 <= j < n && candidates@[j] == (t as usize, k as usize);
            assert(candidates@[j].0 as int == t && candidates@[j].1 as int == k);
            assert(peak(candidates@[j].0 as int, candidates@[j].1 as int));
        }
    }
    Ok(peaks)
}

} // verus!

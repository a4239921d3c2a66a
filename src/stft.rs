use vstd::prelude::*;

use crate::error::Error;
use crate::spectrogram::{
    bin_count, first_channel_of, grid_is_valid, has_ragged_row, rows_view, window_at,
    window_count, Spectrogram,
};

verus! {

proof fn lemma_window_fits(n: int, w: int, t: int)
    requires
        0 < w <= n,
        0 <= t < (n - w) / w + 1,
    ensures
        t * w + w <= n,
        0 <= t * w,
{
    let q = (n - w) / w;
    assert(n - w == q * w + (n - w) % w) by (nonlinear_arith)
        requires
            w > 0,
            q == (n - w) / w,
    ;
    assert(0 <= (n - w) % w) by (nonlinear_arith)
        requires
            w > 0,
    ;
    assert(t * w <= q * w) by (nonlinear_arith)
        requires
            0 <= t <= q,
            w > 0,
    ;
    assert(0 <= t * w) by (nonlinear_arith)
        requires
            0 <= t,
            w > 0,
    ;
}

proof fn lemma_stride_fits(n: int, c: int, j: int)
    requires
        c > 0,
        n >= 0,
        0 <= j < n / c + (if n % c == 0 {
            0int
        } else {
            1int
        }),
    ensures
        0 <= j * c < n,
{
    assert(n == (n / c) * c + n % c) by (nonlinear_arith)
        requires
            c > 0,
    ;
    assert(0 <= n % c < c) by (nonlinear_arith)
        requires
            c > 0,
    ;
    assert(0 <= n / c) by (nonlinear_arith)
        requires
            c > 0,
            n >= 0,
    ;
    let q = n / c;
    let rem = n % c;
    if rem == 0 {
        assert(j * c < n) by (nonlinear_arith)
            requires
                n == q * c + rem,
                rem == 0,
                0 <= j < q,
                c > 0,
        ;
    } else {
        assert(j * c < n) by (nonlinear_arith)
            requires
                n == q * c + rem,
                0 < rem < c,
                0 <= j <= q,
                c > 0,
        ;
    }
    assert(0 <= j * c) by (nonlinear_arith)
        requires
            0 <= j,
            c > 0,
    ;
}

/// Selects the first channel of interleaved samples by taking every `channels`-th
/// sample. Fails with `Input` when `channels` is zero.
pub fn first_channel(interleaved: &Vec<i16>, channels: usize) -> (r: Result<Vec<i16>, Error>)
    ensures
        channels == 0 ==> r == Err::<Vec<i16>, Error>(Error::Input),
        channels > 0 ==> (r matches Ok(s) && s@ == first_channel_of(
            interleaved@,
            channels as nat,
        )),
{
    if channels == 0 {
        return Err(Error::Input);
    }
    let n = interleaved.len();
    assert(n % channels != 0 ==> n / channels + 1 <= n) by (nonlinear_arith)
        requires
            channels > 0,
            n >= 0,
    {
        assert(n == (n / channels) * channels + n % channels);
        assert(0 <= n % channels < channels);
        if n % channels != 0 && channels == 1 {
            assert(n % channels == 0);
        }
        if channels >= 2 {
            assert((n / channels) * channels >= (n / channels) * 2);
        }
    }
    let m: usize = if n % channels == 0 {
        n / channels
    } else {
        n / channels + 1
    };
    let ghost spec_len = ((n + channels - 1) / (channels as int)) as nat;
    assert(m == spec_len) by (nonlinear_arith)
        requires
            channels > 0,
            n >= 0,
            m == if n % channels == 0 {
                (n / channels) as int
            } else {
                n / channels + 1
            },
            spec_len == (n + channels - 1) / (channels as int),
    {
        assert(n == (n / channels) * channels + n % channels);
        assert(0 <= n % channels < channels);
    }
    let mut out: Vec<i16> = Vec::new();
    for j in 0..m
        invariant
            channels > 0,
            n == interleaved@.len(),
            m == if n % channels == 0 {
                (n / channels) as int
            } else {
                n / channels + 1
            },
            out@.len() == j,
            forall|i: int| 0 <= i < j ==> out@[i] == interleaved@[i * channels],
    {
        proof {
            lemma_stride_fits(n as int, channels as int, j as int);
        }
        out.push(interleaved[j * channels]);
    }
    assert(out@ =~= first_channel_of(interleaved@, channels as nat));
    Ok(out)
}

/// Cuts samples into contiguous, non-overlapping windows of `window_size` samples
/// (hop = `window_size`); a trailing partial window is dropped. Fails with `Input`
/// when `window_size` is zero (a zero sample rate) or exceeds the number of samples.
pub fn frames(samples: &Vec<i16>, window_size: usize) -> (r: Result<Vec<Vec<i16>>, Error>)
    ensures
        (window_size == 0 || window_size > samples@.len()) ==> r == Err::<Vec<Vec<i16>>, Error>(
            Error::Input,
        ),
        0 < window_size <= samples@.len() ==> (r matches Ok(f) && {
            &&& f@.len() == window_count(samples@.len(), window_size as nat)
            &&& forall|t: int|
                0 <= t < f@.len() ==> (#[trigger] f@[t])@ == window_at(
                    samples@,
                    window_size as nat,
                    t,
                )
        }),
{
    let n = samples.len();
    if window_size == 0 || window_size > n {
        return Err(Error::Input);
    }
    let w = window_size;
    let count: usize = (n - w) / w + 1;
    let mut out: Vec<Vec<i16>> = Vec::new();
    for t in 0..count
        invariant
            0 < w <= n,
            n == samples@.len(),
            count == (n - w) / (w as int) + 1,
            out@.len() == t,
            forall|i: int|
                0 <= i < t ==> (#[trigger] out@[i])@ == window_at(samples@, w as nat, i),
    {
        proof {
            lemma_window_fits(n as int, w as int, t as int);
        }
        let start = t * w;
        let mut row: Vec<i16> = Vec::new();
        for k in 0..w
            invariant
                start + w <= n,
                n == samples@.len(),
                start == t * w,
                row@.len() == k,
                forall|i: int| 0 <= i < k ==> row@[i] == samples@[start + i],
        {
            row.push(samples[start + k]);
        }
        assert(row@ =~= window_at(samples@, w as nat, t as int));
        out.push(row);
    }
    Ok(out)
}

/// The spectrogram rows kept of full `w`-point spectra: bins `0..=w/2` of each.
pub open spec fn kept_bins(spectra: Seq<Seq<u32>>, w: nat) -> Seq<Seq<u32>> {
    spectra.map_values(|s: Seq<u32>| s.take(bin_count(w) as int))
}

/// Whether every spectrum has exactly `w` points.
pub open spec fn all_spectra_have_len(spectra: Seq<Seq<u32>>, w: nat) -> bool {
    forall|t: int| 0 <= t < spectra.len() ==> (#[trigger] spectra[t]).len() == w
}

/// Builds a spectrogram from the full `window_size`-point spectra of the windows
/// (the real parts, as single-precision bit patterns), keeping bins
/// `0..=window_size/2`. Fails with `Shape` when `window_size` is zero or a spectrum
/// has another length, and otherwise with `Input` when a kept value is NaN.
pub fn spectrogram_from_spectra(spectra: &Vec<Vec<u32>>, window_size: usize) -> (r: Result<
    Spectrogram,
    Error,
>)
    ensures
        r is Ok <==> window_size > 0 && all_spectra_have_len(rows_view(spectra@), window_size as nat)
            && grid_is_valid(
            kept_bins(rows_view(spectra@), window_size as nat),
            bin_count(window_size as nat),
        ),
        r matches Ok(s) ==> s@ == kept_bins(rows_view(spectra@), window_size as nat) && s.cols()
            == bin_count(window_size as nat),
        r matches Err(e) ==> e == Error::Shape || e == Error::Input,
        r matches Err(e) ==> (e == Error::Shape <==> (window_size == 0 || !all_spectra_have_len(
            rows_view(spectra@),
            window_size as nat,
        ))),
{
    let ghost g = rows_view(spectra@);
    if window_size == 0 {
        return Err(Error::Shape);
    }
    let bins = window_size / 2 + 1;
    let mut rows: Vec<Vec<u32>> = Vec::new();
    let mut t: usize = 0;
    while t < spectra.len()
        invariant
            g == rows_view(spectra@),
            bins == bin_count(window_size as nat),
            bins <= window_size,
            t <= spectra@.len(),
            rows@.len() == t,
            forall|i: int| 0 <= i < t ==> (#[trigger] g[i]).len() == window_size,
            forall|i: int|
                0 <= i < t ==> (#[trigger] rows@[i])@ == g[i].take(bins as int),
        decreases spectra@.len() - t,
    {
        if spectra[t].len() != window_size {
            assert(g[t as int].len() != window_size);
            return Err(Error::Shape);
        }
        let mut row: Vec<u32> = Vec::new();
        for k in 0..bins
            invariant
                bins <= window_size,
                t < spectra@.len(),
                g == rows_view(spectra@),
                spectra@[t as int]@.len() == window_size,
                row@.len() == k,
                forall|i: int| 0 <= i < k ==> row@[i] == g[t as int][i],
        {
            row.push(spectra[t][k]);
        }
        assert(row@ =~= g[t as int].take(bins as int));
        rows.push(row);
        t = t + 1;
    }
    assert(rows_view(rows@) =~= kept_bins(g, window_size as nat));
    assert(!has_ragged_row(rows@, bins as nat));
    Spectrogram::from_rows(rows, bins)
}

/// Dimensionality: the spectrogram of `n` samples cut into windows of `w` samples,
/// built from one `w`-point spectrum per window, has `floor((n - w) / w) + 1` rows of
/// `w / 2 + 1` bins each.
pub proof fn lemma_spectrogram_dimensions(n: nat, w: nat, spectra: Seq<Seq<u32>>)
    requires
        0 < w <= n,
        spectra.len() == window_count(n, w),
        all_spectra_have_len(spectra, w),
    ensures
        kept_bins(spectra, w).len() == (n - w) / (w as int) + 1,
        forall|t: int| 0 <= t < kept_bins(spectra, w).len() ==> (#[trigger] kept_bins(spectra, w)[t]).len() == w / 2 + 1,
{
    assert forall|t: int| 0 <= t < kept_bins(spectra, w).len() implies (#[trigger] kept_bins(
        spectra,
        w,
    )[t]).len() == w / 2 + 1 by {
        assert(spectra[t].len() == w);
    }
}

} // verus!

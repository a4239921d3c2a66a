use vstd::prelude::*;

use crate::error::Error;

verus! {

/// Bit pattern of the sign bit of an IEEE-754 single-precision value.
pub const SIGN_BIT: u32 = 0x8000_0000;

/// Bit pattern of positive infinity; larger magnitudes are NaN.
pub const INFINITY_BITS: u32 = 0x7f80_0000;

/// The magnitude bits (all but the sign) of a single-precision bit pattern.
pub open spec fn magnitude(bits: u32) -> int {
    if bits >= SIGN_BIT {
        bits - SIGN_BIT
    } else {
        bits as int
    }
}

/// Whether a single-precision bit pattern encodes NaN.
pub open spec fn is_nan_bits(bits: u32) -> bool {
    magnitude(bits) > INFINITY_BITS
}

/// The place of a non-NaN single-precision value on the extended real line, as an
/// integer: `level(a) < level(b)` exactly when `a < b` as floats, and
/// `level(a) == level(b)` exactly when `a == b` (so `+0` and `-0` coincide).
pub open spec fn level(bits: u32) -> int {
    if bits >= SIGN_BIT {
        -magnitude(bits)
    } else {
        magnitude(bits)
    }
}

/// Computes `level(bits)`.
pub fn level_of(bits: u32) -> (r: i64)
    ensures
        r == level(bits),
{
    if bits >= SIGN_BIT {
        -((bits - SIGN_BIT) as i64)
    } else {
        bits as i64
    }
}

/// Whether `bits` encodes NaN.
pub fn is_nan(bits: u32) -> (r: bool)
    ensures
        r == is_nan_bits(bits),
{
    if bits >= SIGN_BIT {
        bits - SIGN_BIT > INFINITY_BITS
    } else {
        bits > INFINITY_BITS
    }
}

/// A grid is well formed when every row has `width` cells and no cell is NaN.
pub open spec fn grid_is_valid(g: Seq<Seq<u32>>, width: nat) -> bool {
    forall|r: int|
        0 <= r < g.len() ==> {
            &&& (#[trigger] g[r]).len() == width
            &&& forall|c: int| 0 <= c < width ==> !is_nan_bits(#[trigger] g[r][c])
        }
}

/// Number of non-overlapping windows of `w` samples in `n` samples, hop `w`.
pub open spec fn window_count(n: nat, w: nat) -> nat
    recommends
        0 < w <= n,
{
    ((n - w) / (w as int) + 1) as nat
}

/// Number of frequency bins kept of a `w`-point transform.
pub open spec fn bin_count(w: nat) -> nat {
    w / 2 + 1
}

/// The `t`-th window of `w` samples.
pub open spec fn window_at(samples: Seq<i16>, w: nat, t: int) -> Seq<i16> {
    samples.subrange(t * w, t * w + w)
}

/// Every `channels`-th sample, starting with the first.
pub open spec fn first_channel_of(interleaved: Seq<i16>, channels: nat) -> Seq<i16>
    recommends
        channels > 0,
{
    Seq::new(
        ((interleaved.len() + channels - 1) / (channels as int)) as nat,
        |i: int| interleaved[i * channels],
    )
}

/// The cells of a vector of rows.
pub open spec fn rows_view(rows: Seq<Vec<u32>>) -> Seq<Seq<u32>> {
    rows.map_values(|row: Vec<u32>| row@)
}

/// Whether some row's length differs from `width`.
pub open spec fn has_ragged_row(rows: Seq<Vec<u32>>, width: nat) -> bool {
    exists|t: int| 0 <= t < rows.len() && (#[trigger] rows[t]).len() != width
}

/// A spectrogram: one row per window, one column per frequency bin. Each cell holds
/// the bit pattern of a single-precision value (the real part of a DFT coefficient),
/// never NaN.
pub struct Spectrogram {
    cells: Vec<Vec<u32>>,
    width: usize,
}

impl View for Spectrogram {
    type V = Seq<Seq<u32>>;

    closed spec fn view(&self) -> Seq<Seq<u32>> {
        rows_view(self.cells@)
    }
}

impl Spectrogram {
    /// Number of columns (frequency bins).
    pub closed spec fn cols(&self) -> nat {
        self.width as nat
    }

    #[verifier::type_invariant]
    closed spec fn well_formed(&self) -> bool {
        grid_is_valid(self@, self.width as nat)
    }

    /// Number of rows (windows). Every spectrogram is well formed.
    pub fn nrows(&self) -> (r: usize)
        ensures
            r == self@.len(),
            grid_is_valid(self@, self.cols()),
    {
        proof {
            use_type_invariant(self);
        }
        self.cells.len()
    }

    /// Number of columns (frequency bins).
    pub fn ncols(&self) -> (r: usize)
        ensures
            r == self.cols(),
            grid_is_valid(self@, self.cols()),
    {
        proof {
            use_type_invariant(self);
        }
        self.width
    }

    /// The bit pattern at row `t`, column `k`.
    pub fn get(&self, t: usize, k: usize) -> (r: u32)
        requires
            t < self@.len(),
            k < self.cols(),
        ensures
            r == self@[t as int][k as int],
    {
        proof {
            use_type_invariant(self);
            assert(self@[t as int] == self.cells@[t as int]@);
        }
        self.cells[t][k]
    }

    /// Builds a spectrogram from rows of cells. Fails with `Shape` when a row's
    /// length differs from `width`, and otherwise with `Input` when a cell is NaN.
    pub fn from_rows(rows: Vec<Vec<u32>>, width: usize) -> (r: Result<Spectrogram, Error>)
        ensures
            r is Ok <==> grid_is_valid(rows_view(rows@), width as nat),
            r matches Ok(s) ==> s@ == rows_view(rows@) && s.cols() == width,
            r matches Err(e) ==> e == Error::Shape || e == Error::Input,
            r matches Err(e) ==> (e == Error::Shape <==> has_ragged_row(rows@, width as nat)),
    {
        let ghost g = rows_view(rows@);
        let mut t: usize = 0;
        while t < rows.len()
            invariant
                t <= rows.len(),
                g == rows_view(rows@),
                forall|i: int| 0 <= i < t ==> (#[trigger] rows@[i]).len() == width,
            decreases rows.len() - t,
        {
            if rows[t].len() != width {
                assert(!grid_is_valid(g, width as nat)) by {
                    assert(g[t as int].len() != width);
                }
                return Err(Error::Shape);
            }
            t = t + 1;
        }
        let mut t: usize = 0;
        while t < rows.len()
            invariant
                t <= rows.len(),
                g == rows_view(rows@),
                forall|i: int| 0 <= i < rows@.len() ==> (#[trigger] rows@[i]).len() == width,
                forall|i: int, c: int|
                    0 <= i < t && 0 <= c < width ==> !is_nan_bits(#[trigger] g[i][c]),
            decreases rows.len() - t,
        {
            let mut k: usize = 0;
            while k < width
                invariant
                    t < rows.len(),
                    k <= width,
                    g == rows_view(rows@),
                    forall|i: int| 0 <= i < rows@.len() ==> (#[trigger] rows@[i]).len() == width,
                    forall|i: int, c: int|
                        0 <= i < t && 0 <= c < width ==> !is_nan_bits(#[trigger] g[i][c]),
                    forall|c: int| 0 <= c < k ==> !is_nan_bits(#[trigger] g[t as int][c]),
                decreases width - k,
            {
                if is_nan(rows[t][k]) {
                    assert(!grid_is_valid(g, width as nat)) by {
                        assert(g[t as int][k as int] == rows@[t as int]@[k as int]);
                    }
                    return Err(Error::Input);
                }
                k = k + 1;
            }
            t = t + 1;
        }
        Ok(Spectrogram { cells: rows, width })
    }
}

} // verus!

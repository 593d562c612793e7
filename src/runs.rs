//! Peak picking on the edge differential: the runs between edges.
use vstd::prelude::*;

verus! {

/// The bit pattern of the single-precision float 0.5.
pub const HALF_BITS: u32 = 0x3F00_0000;

/// The bit pattern of the single-precision float +infinity; a larger
/// magnitude pattern is a NaN.
pub const INFINITY_BITS: u32 = 0x7F80_0000;

/// The sign bit of a single-precision float.
pub const SIGN_BIT: u32 = 0x8000_0000;

/// The bit pattern of the absolute value of a float given by its bit pattern.
/// For floats that are not NaN, the order of magnitudes is the integer order
/// of these patterns.
pub open spec fn magnitude(v: u32) -> u32 {
    v % SIGN_BIT
}

/// A differential value whose absolute value exceeds 0.5 (NaN does not).
pub open spec fn in_edge(v: u32) -> bool {
    HALF_BITS < magnitude(v) <= INFINITY_BITS
}

/// The float's sign bit is clear.
pub open spec fn sign_positive(v: u32) -> bool {
    v < SIGN_BIT
}

/// The state of the peak picker after a prefix of the differential: the runs
/// emitted so far, the index of the last emitted peak (0 before the first),
/// and the peak of the edge under way, if any.
pub type ScanState = (Seq<(usize, bool)>, int, Option<int>);

/// One step of the peak picker, on the value at index `i`. Inside an edge,
/// the sample of largest magnitude is the peak, the latest one among equals.
/// When the edge ends, it emits the distance from the previous peak and the
/// sign of this one.
pub open spec fn scan_step(st: ScanState, d: Seq<u32>, i: int) -> ScanState {
    let (runs, prev, peak) = st;
    if in_edge(d[i]) {
        if peak is Some && magnitude(d[i]) < magnitude(d[peak->0]) {
            st
        } else {
            (runs, prev, Some(i))
        }
    } else {
        match peak {
            Some(p) => (runs.push(((p - prev) as usize, sign_positive(d[p]))), p, None),
            None => st,
        }
    }
}

/// The peak picker's state after the first `n` values of `d`.
pub open spec fn scan_runs(d: Seq<u32>, n: int) -> ScanState
    decreases n,
{
    if n <= 0 {
        (Seq::empty(), 0, None)
    } else {
        scan_step(scan_runs(d, n - 1), d, n - 1)
    }
}

/// The runs between the peaks of a differential signal, each the distance in
/// samples from the previous peak (from index 0 for the first) and whether
/// the peak is positive. The differential is given as the bit patterns of its
/// single-precision values (`f32::to_bits`). An edge still open when the
/// signal ends is dropped.
pub fn find_runs(differential: &[u32]) -> (r: Vec<(usize, bool)>)
    ensures
        r@ == scan_runs(differential@, differential@.len() as int).0,
{
    let mut runs: Vec<(usize, bool)> = Vec::new();
    let mut prev: usize = 0;
    let mut open: bool = false;
    let mut peak: usize = 0;
    let mut i: usize = 0;
    while i < differential.len()
        invariant
            i <= differential@.len(),
            prev <= i,
            open ==> prev <= peak < i,
            scan_runs(differential@, i as int) == (runs@, prev as int, if open {
                Some(peak as int)
            } else {
                None
            }),
        decreases differential@.len() - i,
    {
        let v = differential[i];
        let m = v % SIGN_BIT;
        if HALF_BITS < m && m <= INFINITY_BITS {
            if !open || m >= differential[peak] % SIGN_BIT {
                peak = i;
                open = true;
            }
        } else if open {
            runs.push((peak - prev, differential[peak] < SIGN_BIT));
            prev = peak;
            open = false;
        }
        i = i + 1;
    }
    runs
}

} // verus!

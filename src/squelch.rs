//! Burst extraction on the chunk level: configuration checks, smoothing of
//! the per-chunk "perfect" flags and merging of flagged chunks into bursts.
use vstd::prelude::*;

verus! {

/// How many decimated observations a chunk holds.
pub const CHUNK_SIZE: usize = 16;

/// The parameters of a receive pipeline run.
pub struct Config {
    /// How many demodulated samples are averaged into one observation.
    pub decimation: usize,
    /// The sample rate of the capture, in Hz.
    pub sample_rate: u32,
    /// The FM deviation of the signal, in Hz.
    pub deviation: u32,
    /// Where the signal sits relative to the capture's centre, in Hz.
    pub shift: i64,
}

/// Why a configuration is refused.
#[derive(Debug, Clone, Copy, PartialEq, Eq, Structural)]
pub enum ConfigError {
    /// The deviation exceeds half the sample rate.
    Deviation,
    /// The shift exceeds half the sample rate in absolute value.
    Shift,
}

impl Config {
    /// The deviation is at most half the sample rate (rounded down).
    pub open spec fn deviation_ok(&self) -> bool {
        self.deviation <= self.sample_rate / 2
    }

    /// The absolute shift is at most half the sample rate.
    pub open spec fn shift_ok(&self) -> bool {
        let s = self.shift as int;
        2 * (if s < 0 { -s } else { s }) <= self.sample_rate
    }

    /// Checks the deviation, then the shift, against half the sample rate.
    pub fn check(&self) -> (r: Result<(), ConfigError>)
        ensures
            r == if !self.deviation_ok() {
                Err(ConfigError::Deviation)
            } else if !self.shift_ok() {
                Err(ConfigError::Shift)
            } else {
                Ok(())
            },
    {
        if self.deviation > self.sample_rate / 2 {
            return Err(ConfigError::Deviation);
        }
        let s = self.shift as i128;
        let a: i128 = if s < 0 { -s } else { s };
        if 2 * a > self.sample_rate as i128 {
            return Err(ConfigError::Shift);
        }
        Ok(())
    }
}

/// The smoothed flag of chunk `i`: set when a chunk within two of it is
/// perfect. The two chunks at either end keep their own flag.
pub open spec fn smoothed_at(orig: Seq<bool>, i: int) -> bool {
    if 2 <= i && i + 2 < orig.len() {
        exists|j: int| i - 2 <= j <= i + 2 && #[trigger] orig[j]
    } else {
        orig[i]
    }
}

/// Dilates the per-chunk "perfect" flags by two chunks on each side.
pub fn smooth(orig: &[bool]) -> (r: Vec<bool>)
    ensures
        r@.len() == orig@.len(),
        forall|i: int| 0 <= i < orig@.len() ==> #[trigger] r@[i] == smoothed_at(orig@, i),
{
    let mut r: Vec<bool> = Vec::new();
    let mut i: usize = 0;
    while i < orig.len()
        invariant
            i <= orig@.len(),
            r@.len() == i,
            forall|t: int| 0 <= t < i ==> #[trigger] r@[t] == smoothed_at(orig@, t),
        decreases orig@.len() - i,
    {
        let v = if 2 <= i && orig.len() - i > 2 {
            let any = orig[i - 2] || orig[i - 1] || orig[i] || orig[i + 1] || orig[i + 2];
            proof {
                if smoothed_at(orig@, i as int) {
                    let j = choose|j: int| i - 2 <= j <= i + 2 && #[trigger] orig@[j];
                    assert(any);
                }
                if any {
                    if orig@[i - 2] {
                        assert(smoothed_at(orig@, i as int));
                    } else if orig@[i - 1] {
                        assert(smoothed_at(orig@, i as int));
                    } else if orig@[i as int] {
                        assert(smoothed_at(orig@, i as int));
                    } else if orig@[i + 1] {
                        assert(smoothed_at(orig@, i as int));
                    } else {
                        assert(orig@[i + 2]);
                        assert(smoothed_at(orig@, i as int));
                    }
                }
            }
            any
        } else {
            orig[i]
        };
        r.push(v);
        i = i + 1;
    }
    r
}

/// The first chunk of the run of set flags that ends just before chunk `k`
/// (`k` itself when chunk `k - 1` is not set).
pub open spec fn run_start(flags: Seq<bool>, k: int) -> int
    decreases k,
{
    if k > 0 && flags[k - 1] {
        run_start(flags, k - 1)
    } else {
        k
    }
}

proof fn lemma_run_start_bound(flags: Seq<bool>, k: int)
    ensures
        run_start(flags, k) <= k,
    decreases k,
{
    if k > 0 && flags[k - 1] {
        lemma_run_start_bound(flags, k - 1);
    }
}

/// Chunk `k` is not set and closes a run of set chunks.
pub open spec fn ends_run(flags: Seq<bool>, k: int) -> bool {
    0 < k < flags.len() && !flags[k] && flags[k - 1]
}

/// How many chunks of `chunk_by` observations `n` observations make, the
/// last one possibly short.
pub open spec fn chunk_count(n: int, chunk_by: int) -> int {
    n / chunk_by + if n % chunk_by == 0 { 0int } else { 1int }
}

/// The bursts closed among the first `m` chunks: for each chunk `k` that
/// closes a run, `k` and the observations of the run's chunks.
pub open spec fn bursts<T>(obs: Seq<T>, flags: Seq<bool>, chunk_by: int, m: int) -> Seq<(usize, Seq<T>)>
    decreases m,
{
    if m <= 0 {
        Seq::empty()
    } else {
        let before = bursts(obs, flags, chunk_by, m - 1);
        let k = m - 1;
        if ends_run(flags, k) {
            before.push((k as usize, obs.subrange(run_start(flags, k) * chunk_by, k * chunk_by)))
        } else {
            before
        }
    }
}

/// Every burst among the first `m` chunks: those that a clear flag closes
/// (see `bursts`), then the run still open at chunk `m - 1`, if any, with the
/// index `m` just past it and the observations of its chunks (the last chunk
/// possibly short).
pub open spec fn all_bursts<T>(obs: Seq<T>, flags: Seq<bool>, chunk_by: int, m: int) -> Seq<(usize, Seq<T>)> {
    let closed = bursts(obs, flags, chunk_by, m);
    if m > 0 && flags[m - 1] {
        let end = if m * chunk_by < obs.len() { m * chunk_by } else { obs.len() as int };
        closed.push((m as usize, obs.subrange(run_start(flags, m) * chunk_by, end)))
    } else {
        closed
    }
}

/// How many chunks `merge_runs` looks at: those that have both a flag and
/// observations.
pub open spec fn merged_chunks(n: int, flags_len: int, chunk_by: int) -> int {
    let c = chunk_count(n, chunk_by);
    if flags_len < c {
        flags_len
    } else {
        c
    }
}

proof fn lemma_chunk_inside(k: int, n: int, chunk_by: int)
    requires
        chunk_by > 0,
        0 <= k < chunk_count(n, chunk_by),
        n >= 0,
    ensures
        k * chunk_by < n,
        (k + 1) * chunk_by == k * chunk_by + chunk_by,
{
    let q = n / chunk_by;
    let rem = n % chunk_by;
    assert(n == q * chunk_by + rem && 0 <= rem < chunk_by) by (nonlinear_arith)
        requires
            chunk_by > 0,
            q == n / chunk_by,
            rem == n % chunk_by,
    ;
    if k < q {
        assert(k * chunk_by < n) by (nonlinear_arith)
            requires
                k < q,
                n == q * chunk_by + rem,
                0 <= rem,
                chunk_by > 0,
        ;
    } else {
        assert(k * chunk_by < n) by (nonlinear_arith)
            requires
                k == q,
                n == q * chunk_by + rem,
                0 < rem,
        ;
    }
    assert((k + 1) * chunk_by == k * chunk_by + chunk_by) by (nonlinear_arith);
}

/// Splits the observations into bursts: each maximal run of set flags
/// becomes one burst, reported with the index of the chunk just past the run
/// and the concatenated observations of the run's chunks. This includes a run
/// that reaches the last chunk. These indices increase by at least two from
/// one burst to the next.
pub fn merge_runs<T: Copy>(observations: &[T], smoothed: &[bool], chunk_by: usize) -> (r: Vec<(usize, Vec<T>)>)
    requires
        chunk_by > 0,
    ensures
        ({
            let b = all_bursts(
                observations@,
                smoothed@,
                chunk_by as int,
                merged_chunks(observations@.len() as int, smoothed@.len() as int, chunk_by as int),
            );
            &&& r@.len() == b.len()
            &&& forall|i: int| 0 <= i < b.len() ==> (#[trigger] r@[i]).0 == b[i].0 && r@[i].1@ == b[i].1
        }),
        forall|i: int| 0 < i < r@.len() ==> r@[i - 1].0 + 2 <= (#[trigger] r@[i]).0,
{
    let n = observations.len();
    let q: usize = n / chunk_by;
    proof {
        assert(q <= n && (n % chunk_by != 0 ==> q < n)) by (nonlinear_arith)
            requires
                chunk_by > 0,
                q == n / chunk_by,
        ;
    }
    let chunks: usize = if n % chunk_by == 0 { q } else { q + 1 };
    let m: usize = if smoothed.len() < chunks { smoothed.len() } else { chunks };
    let mut picked: Vec<(usize, Vec<T>)> = Vec::new();
    let mut start: usize = 0;
    let mut k: usize = 0;
    while k < m
        invariant
            n == observations@.len(),
            chunk_by > 0,
            chunks == chunk_count(n as int, chunk_by as int),
            m == merged_chunks(n as int, smoothed@.len() as int, chunk_by as int),
            m <= smoothed@.len(),
            m <= chunks,
            k <= m,
            start <= k,
            start == run_start(smoothed@, k as int),
            picked@.len() > 0 ==> picked@.last().0 < start,
            ({
                let b = bursts(observations@, smoothed@, chunk_by as int, k as int);
                &&& picked@.len() == b.len()
                &&& forall|i: int| 0 <= i < b.len() ==> (#[trigger] picked@[i]).0 == b[i].0 && picked@[i].1@ == b[i].1
            }),
            forall|i: int| 0 < i < picked@.len() ==> picked@[i - 1].0 + 2 <= (#[trigger] picked@[i]).0,
        decreases m - k,
    {
        proof {
            lemma_chunk_inside(k as int, n as int, chunk_by as int);
            assert(start * chunk_by <= k * chunk_by) by (nonlinear_arith)
                requires
                    start <= k,
                    chunk_by > 0,
            ;
        }
        if smoothed[k] {
            k = k + 1;
            continue;
        }
        if start < k {
            let from = start * chunk_by;
            let to = k * chunk_by;
            let samples = vstd::slice::slice_to_vec(&observations[from..to]);
            let ghost before = picked@;
            picked.push((k, samples));
            proof {
                let b = bursts(observations@, smoothed@, chunk_by as int, k as int);
                assert(ends_run(smoothed@, k as int));
                assert(bursts(observations@, smoothed@, chunk_by as int, k + 1) == b.push(
                    (k as usize, observations@.subrange(start * chunk_by, k * chunk_by)),
                ));
                assert forall|i: int| 0 < i < picked@.len() implies picked@[i - 1].0 + 2 <= (#[trigger] picked@[i]).0 by {
                    if i < picked@.len() - 1 {
                        assert(picked@[i] == before[i] && picked@[i - 1] == before[i - 1]);
                    }
                }
            }
        } else {
            proof {
                if k > 0 && smoothed@[k - 1] {
                    lemma_run_start_bound(smoothed@, k - 1);
                }
                assert(!ends_run(smoothed@, k as int));
            }
        }
        start = k + 1;
        k = k + 1;
    }
    if start < m {
        let ghost before = picked@;
        proof {
            lemma_chunk_inside(m - 1, n as int, chunk_by as int);
            assert(start * chunk_by <= (m - 1) * chunk_by) by (nonlinear_arith)
                requires
                    start <= m - 1,
                    chunk_by > 0,
            ;
        }
        let last = (m - 1) * chunk_by;
        let to = if n - last > chunk_by { last + chunk_by } else { n };
        let samples = vstd::slice::slice_to_vec(&observations[start * chunk_by..to]);
        picked.push((m, samples));
        proof {
            assert(smoothed@[m - 1]);
            assert forall|i: int| 0 < i < picked@.len() implies picked@[i - 1].0 + 2 <= (#[trigger] picked@[i]).0 by {
                if i < picked@.len() - 1 {
                    assert(picked@[i] == before[i] && picked@[i - 1] == before[i - 1]);
                }
            }
        }
    } else {
        proof {
            if m > 0 && smoothed@[m - 1] {
                lemma_run_start_bound(smoothed@, m - 1);
            }
        }
    }
    picked
}

} // verus!

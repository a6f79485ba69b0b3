//! Parts of the end-of-run report that do not depend on measured values:
//! the run parameters it records and which points of a time series it
//! samples.
use vstd::prelude::*;

verus! {

/// Run parameters recorded in the report.
#[derive(Debug, Clone, Copy, PartialEq, Eq, Structural)]
pub struct ReportConfig {
    pub ticks: u32,
    pub merchants: u32,
    pub seed: u64,
}

/// Three evenly spaced points of `series` (the last point of its first,
/// second and final third), or the whole series when it has fewer than three
/// points.
pub open spec fn evenly_spaced_samples<T>(series: Seq<T>) -> Seq<T> {
    if series.len() >= 3 {
        let step = series.len() / 3;
        seq![series[step - 1], series[2 * step - 1], series[series.len() - 1]]
    } else {
        series
    }
}

/// Sample a per-tick series (such as road entropy) at three evenly spaced
/// points for the report.
pub fn sample_series<T: Copy>(series: &[T]) -> (r: Vec<T>)
    ensures
        r@ == evenly_spaced_samples(series@),
{
    let n = series.len();
    if n >= 3 {
        let step = n / 3;
        let mut r: Vec<T> = Vec::new();
        r.push(series[step - 1]);
        r.push(series[2 * step - 1]);
        r.push(series[n - 1]);
        assert(r@ =~= evenly_spaced_samples(series@));
        r
    } else {
        let mut r: Vec<T> = Vec::new();
        let mut i: usize = 0;
        while i < n
            invariant
                i <= n,
                n == series@.len(),
                r@ == series@.take(i as int),
            decreases n - i,
        {
            r.push(series[i]);
            i += 1;
            assert(r@ =~= series@.take(i as int));
        }
        assert(series@.take(n as int) =~= series@);
        r
    }
}

} // verus!

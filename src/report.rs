//! Server-error rates per domain.
use vstd::prelude::*;
use crate::tally::{bounded, Tally};

verus! {

/// Why no rates can be given.
#[derive(Debug, Clone, Copy, PartialEq, Eq, Structural)]
pub enum ReportError {
    /// No record lay in the window, so there is nothing to divide by.
    NoEligibleRecords,
}

/// `count / total` as a percentage in hundredths, rounded half up: the
/// percentage shown with two decimals.
pub open spec fn percent_hundredths(count: nat, total: nat) -> nat
    recommends
        total > 0,
{
    (count * 20000 + total) / (2 * total)
}

/// The percentage in hundredths that `count` is of `total`.
pub fn percent_of(count: u64, total: u64) -> (r: u64)
    requires
        0 < total,
        count <= total,
    ensures
        r == percent_hundredths(count as nat, total as nat),
        r <= 10000,
{
    let c = count as u128;
    let t = total as u128;
    assert(c * 20000 + t <= 0xffff_ffff_ffff_ffff * 20001) by (nonlinear_arith)
        requires
            c <= t,
            t <= 0xffff_ffff_ffff_ffff,
    ;
    let q = (c * 20000 + t) / (2 * t);
    assert(q <= 10000) by (nonlinear_arith)
        requires
            c <= t,
            0 < t,
            q == (c * 20000 + t) / (2 * t),
    ;
    q as u64
}

/// For each domain of `tally`, its share of server errors among all eligible
/// records, in hundredths of a percent; an error where no record was eligible.
pub fn percentages(tally: &Tally) -> (r: Result<Vec<(String, u64)>, ReportError>)
    requires
        tally.wf(),
    ensures
        r is Err <==> tally@.total == 0,
        match r {
            Ok(rows) => {
                &&& rows@.len() == tally@.errors.dom().len()
                &&& forall|i: int|
                    0 <= i < rows@.len() ==> #[trigger] tally@.errors.contains_key(rows@[i].0@)
                        && rows@[i].1 == percent_hundredths(
                        tally@.errors[rows@[i].0@],
                        tally@.total,
                    )
                &&& forall|i: int, j: int| 0 <= i < j < rows@.len() ==> rows@[i].0@ != rows@[j].0@
            },
            Err(_) => true,
        },
{
    let total = tally.total();
    if total == 0 {
        return Err(ReportError::NoEligibleRecords);
    }
    let entries = tally.entries();
    proof {
        tally.lemma_wf_bounded();
    }
    let mut rows: Vec<(String, u64)> = Vec::new();
    for i in 0..entries.len()
        invariant
            total == tally@.total,
            0 < total,
            bounded(tally@),
            entries@.len() == tally@.errors.dom().len(),
            forall|i: int|
                0 <= i < entries@.len() ==> #[trigger] tally@.errors.contains_key(entries@[i].0@)
                    && tally@.errors[entries@[i].0@] == entries@[i].1,
            rows@.len() == i,
            forall|j: int|
                0 <= j < i ==> (#[trigger] rows@[j]).0@ == entries@[j].0@ && rows@[j].1
                    == percent_hundredths(entries@[j].1 as nat, total as nat),
    {
        let (domain, count) = &entries[i];
        assert(tally@.errors.contains_key(entries@[i as int].0@));
        let p = percent_of(*count, total);
        rows.push((domain.clone(), p));
    }
    Ok(rows)
}

} // verus!

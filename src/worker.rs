//! What a worker does with the outcome of one fetch, and how long it waits
//! before the next one.
use vstd::prelude::*;
use rand::Rng;
use crate::partition::divide;
use crate::query::{Axes, TopTimesRequest, children, wf};
use crate::store::{RequestDb, after_error, after_success};

verus! {

/// Axes used to divide a search whose results came back saturated: every
/// facet, the zone included.
pub open spec fn refine_axes() -> Axes {
    Axes { course: true, stroke: true, distance: true, date: true, age: true, zone: true }
}

/// Whether `count` results out of a cap of `cap` reach the saturation
/// threshold of `permille` thousandths of the cap.
pub open spec fn saturated(count: u32, cap: u32, permille: u32) -> bool {
    count as int * 1000 >= cap as int * permille as int
}

/// What the source adapter made of one search.
pub enum FetchOutcome {
    /// The response was parsed and held this many results.
    Found(u32),
    /// The transport failed or the response had an unexpected shape.
    Failed(String),
}

/// What happens to a search after its fetch.
pub enum Action {
    /// Untruncated: record success and hand the results to the sink.
    Complete(u32),
    /// Presumed truncated: record nothing and queue these children instead.
    Split(Vec<TopTimesRequest>),
    /// Saturated, but no axis is left to divide: record success and flag it
    /// for inspection.
    CompleteFlagged(u32),
    /// Failed: record the error and queue the same search again.
    Requeue(String),
}

/// Decides what follows a fetch of `req`.
pub fn decide(req: &TopTimesRequest, outcome: FetchOutcome, permille: u32) -> (r: Action)
    requires
        wf(*req),
    ensures
        match outcome {
            FetchOutcome::Failed(e) => r == Action::Requeue(e),
            FetchOutcome::Found(n) => if !saturated(n, req.max_results, permille) {
                r == Action::Complete(n)
            } else if children(*req, refine_axes()).len() > 0 {
                r matches Action::Split(cs) && cs@ == children(*req, refine_axes())
            } else {
                r == Action::CompleteFlagged(n)
            },
        },
{
    match outcome {
        FetchOutcome::Failed(e) => Action::Requeue(e),
        FetchOutcome::Found(n) => {
            let cap = req.max_results as u64;
            let share = permille as u64;
            proof {
                assert(cap * share <= 0xffff_ffffu64 * 0xffff_ffffu64) by (nonlinear_arith)
                    requires
                        cap <= 0xffff_ffffu64,
                        share <= 0xffff_ffffu64,
                ;
            }
            if (n as u64) * 1000 < cap * share {
                Action::Complete(n)
            } else {
                let axes = Axes { course: true, stroke: true, distance: true, date: true, age: true, zone: true };
                let cs = divide(req, &axes);
                if cs.len() > 0 {
                    Action::Split(cs)
                } else {
                    Action::CompleteFlagged(n)
                }
            }
        },
    }
}

/// Records in `db` what `action` says about the search with identity
/// `req_id`, and returns the searches to put back on the queue.
pub fn apply(db: &mut RequestDb, req: &TopTimesRequest, req_id: &str, action: Action, duration_ms: u64) -> (r: Vec<TopTimesRequest>)
    requires
        old(db).wf(),
    ensures
        final(db).wf(),
        match action {
            Action::Complete(n) | Action::CompleteFlagged(n) => final(db)@ == after_success(old(db)@, req_id@, n, duration_ms) && r@.len() == 0,
            Action::Split(cs) => final(db)@ == old(db)@ && r@ == cs@,
            Action::Requeue(e) => final(db)@ == after_error(old(db)@, req_id@, e@, duration_ms) && r@ == seq![*req],
        },
{
    match action {
        Action::Complete(n) | Action::CompleteFlagged(n) => {
            db.upsert_request_success(req_id, n, duration_ms);
            Vec::new()
        },
        Action::Split(cs) => cs,
        Action::Requeue(e) => {
            db.upsert_request_error(req_id, e.as_str(), duration_ms);
            let r = vec![*req];
            r
        },
    }
}

/// What is left of a budget of `target_ms` after `elapsed_ms` are spent.
pub open spec fn paced(target_ms: u64, elapsed_ms: u64) -> u64 {
    if elapsed_ms < target_ms {
        (target_ms - elapsed_ms) as u64
    } else {
        0
    }
}

/// How long to wait after a fetch that took `elapsed_ms`, so that the whole
/// item takes `target_ms`: the difference, or nothing once it is used up.
pub fn pacing_delay(target_ms: u64, elapsed_ms: u64) -> (r: u64)
    ensures
        r == paced(target_ms, elapsed_ms),
{
    if elapsed_ms < target_ms {
        target_ms - elapsed_ms
    } else {
        0
    }
}

/// Relies on rand's `thread_rng().gen_range(low..high)`: a value drawn from
/// the half-open range, which must not be empty.
#[verifier::external_body]
fn random_in(low: u64, high: u64) -> (r: u64)
    requires
        low < high,
    ensures
        low <= r < high,
{
    rand::thread_rng().gen_range(low..high)
}

/// The wait after a fetch that took `elapsed_ms`, against a budget drawn at
/// random from `[min_ms, max_ms)`.
pub fn next_delay(elapsed_ms: u64, min_ms: u64, max_ms: u64) -> (r: u64)
    requires
        min_ms < max_ms,
    ensures
        exists|target: u64| min_ms <= target < max_ms && r == #[trigger] paced(target, elapsed_ms),
{
    let target = random_in(min_ms, max_ms);
    pacing_delay(target, elapsed_ms)
}

} // verus!

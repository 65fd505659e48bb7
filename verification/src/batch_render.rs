//! Rendering several tiles at once.

use crate::resample::{ResamplingMode, StretchConfig};
use vstd::prelude::*;

verus! {

/// A tile that is to be rendered. `F` is the type of the numbers of its stretch.
#[derive(Debug, Clone)]
pub struct BatchTileJob<F> {
    pub path: String,
    pub z: u32,
    pub x: u32,
    pub y: u32,
    pub bands: Vec<u32>,
    pub resampling: ResamplingMode,
    pub stretch: Option<StretchConfig<F>>,
    pub priority: u32,
}

/// A tile that was rendered.
#[derive(Debug, Clone)]
pub struct BatchTileResult {
    pub x: u32,
    pub y: u32,
    pub z: u32,
    pub data: Vec<u8>,
    pub rendered: u32,
}

/// The number of workers for a number of jobs: as many as are allowed, at least one, and
/// no more than there are jobs.
pub open spec fn worker_count(jobs: int, max_workers: int) -> int {
    let wanted = if max_workers >= 1 {
        max_workers
    } else {
        1
    };
    if wanted < jobs {
        wanted
    } else {
        jobs
    }
}

/// The jobs of a worker.
pub open spec fn share(jobs: int, max_workers: int) -> int {
    crate::tile::raster_load::ceil_div(jobs, worker_count(jobs, max_workers))
}

/// The jobs `[start, end)` of worker `w`.
pub open spec fn worker_range(jobs: int, max_workers: int, w: int) -> (int, int) {
    let n = share(jobs, max_workers);
    let start = w * n;
    (start, crate::tile::raster_load::min_int(start + n, jobs))
}

/// The ranges are those of the workers that get any jobs, up to the last job.
pub open spec fn is_share_out(jobs: int, max_workers: int, ranges: Seq<(usize, usize)>) -> bool {
    &&& jobs == 0 ==> ranges.len() == 0
    &&& jobs > 0 ==> {
        &&& forall|w: int|
            0 <= w < ranges.len() ==> {
                let (start, end) = worker_range(jobs, max_workers, w);
                &&& (#[trigger] ranges[w]).0 == start
                &&& ranges[w].1 == end
                &&& start < end <= jobs
            }
        &&& ranges.len() > 0
        &&& ranges.len() <= worker_count(jobs, max_workers)
        &&& ranges.last().1 == jobs
    }
}

/// How jobs are shared out: the range of jobs for each worker that gets any.
pub fn worker_ranges(jobs: usize, max_workers: usize) -> (ranges: Vec<(usize, usize)>)
    ensures
        is_share_out(jobs as int, max_workers as int, ranges@),
{
    let mut ranges: Vec<(usize, usize)> = Vec::new();
    if jobs == 0 {
        return ranges;
    }
    let wanted: usize = if max_workers >= 1 {
        max_workers
    } else {
        1
    };
    let workers: usize = if wanted < jobs {
        wanted
    } else {
        jobs
    };
    let ghost n = share(jobs as int, max_workers as int);
    proof {
        lemma_share(jobs as int, max_workers as int);
    }
    let size: usize = if jobs % workers == 0 {
        jobs / workers
    } else {
        proof {
            vstd::arithmetic::div_mod::lemma_div_decreases(jobs as int, workers as int);
        }
        jobs / workers + 1
    };
    proof {
        lemma_rounded_up(jobs as int, workers as int);
        assert(size == n);
    }
    let mut start: usize = 0;
    let mut w: usize = 0;
    assert(0 * n == 0);
    while w < workers && start < jobs
        invariant
            n == share(jobs as int, max_workers as int),
            size == n,
            n >= 1,
            workers == worker_count(jobs as int, max_workers as int),
            workers * n >= jobs,
            w <= workers,
            ranges@.len() == w,
            start == (if w * n < jobs {
                w * n
            } else {
                jobs as int
            }),
            w > 0 ==> ranges@[w - 1].1 == start,
            forall|k: int|
                0 <= k < w ==> {
                    let (s, e) = worker_range(jobs as int, max_workers as int, k);
                    &&& (#[trigger] ranges@[k]).0 == s
                    &&& ranges@[k].1 == e
                    &&& s < e <= jobs
                },
        decreases workers - w,
    {
        let end: usize = if size < jobs - start {
            start + size
        } else {
            jobs
        };
        proof {
            assert((w + 1) * n == w * n + n) by (nonlinear_arith);
        }
        ranges.push((start, end));
        start = end;
        w += 1;
    }
    proof {
        if w == workers {
            assert(start == jobs);
        }
        if w == 0 {
            assert(false);
        }
    }
    ranges
}

proof fn lemma_rounded_up(a: int, b: int)
    requires
        a >= 0,
        b >= 1,
    ensures
        crate::tile::raster_load::ceil_div(a, b) == a / b + (if a % b == 0 {
            0int
        } else {
            1int
        }),
{
    vstd::arithmetic::div_mod::lemma_fundamental_div_mod(a, b);
    vstd::arithmetic::div_mod::lemma_mod_bound(a, b);
    let q = a / b;
    let r = a % b;
    assert(b * (q + 1) == b * q + b) by (nonlinear_arith);
    if r == 0 {
        assert(q * b == b * q) by (nonlinear_arith);
        vstd::arithmetic::div_mod::lemma_fundamental_div_mod_converse(a + b - 1, b, q, b - 1);
    } else {
        assert((q + 1) * b == b * (q + 1)) by (nonlinear_arith);
        vstd::arithmetic::div_mod::lemma_fundamental_div_mod_converse(
            a + b - 1,
            b,
            q + 1,
            r - 1,
        );
    }
}

proof fn lemma_share(jobs: int, max_workers: int)
    requires
        jobs >= 1,
    ensures
        worker_count(jobs, max_workers) >= 1,
        share(jobs, max_workers) >= 1,
        worker_count(jobs, max_workers) * share(jobs, max_workers) >= jobs,
{
    let k = worker_count(jobs, max_workers);
    lemma_rounded_up(jobs, k);
    vstd::arithmetic::div_mod::lemma_fundamental_div_mod(jobs, k);
    vstd::arithmetic::div_mod::lemma_mod_bound(jobs, k);
    vstd::arithmetic::div_mod::lemma_div_non_zero(jobs, k);
    let q = jobs / k;
    assert(k * (q + 1) == k * q + k) by (nonlinear_arith);
}

/// Every job belongs to one worker, and to no other.
pub proof fn law_jobs_are_shared_out(jobs: int, max_workers: int, job: int)
    requires
        0 <= job < jobs,
    ensures
        ({
            let w = job / share(jobs, max_workers);
            &&& 0 <= w < worker_count(jobs, max_workers)
            &&& worker_range(jobs, max_workers, w).0 <= job < worker_range(
                jobs,
                max_workers,
                w,
            ).1
            &&& forall|v: int|
                0 <= v && (#[trigger] worker_range(jobs, max_workers, v)).0 <= job
                    < worker_range(jobs, max_workers, v).1 ==> v == w
        }),
{
    lemma_share(jobs, max_workers);
    let n = share(jobs, max_workers);
    let k = worker_count(jobs, max_workers);
    let w = job / n;
    vstd::arithmetic::div_mod::lemma_fundamental_div_mod(job, n);
    vstd::arithmetic::div_mod::lemma_mod_bound(job, n);
    vstd::arithmetic::div_mod::lemma_div_pos_is_pos(job, n);
    assert(n * w == w * n) by (nonlinear_arith);
    assert(w < k) by (nonlinear_arith)
        requires
            w * n <= job,
            job < jobs,
            jobs <= k * n,
            n >= 1,
    ;
    assert forall|v: int|
        0 <= v && (#[trigger] worker_range(jobs, max_workers, v)).0 <= job < worker_range(
            jobs,
            max_workers,
            v,
        ).1 implies v == w by {
        vstd::arithmetic::div_mod::lemma_fundamental_div_mod_converse(job, n, v, job - v * n);
    }
}

/// The outcome of a job, from what was drawn for it: the tile of the job with its bytes and
/// the number of its pixels, or the error.
pub open spec fn single<F>(job: BatchTileJob<F>, drawn: Result<(Vec<u8>, u32), String>) -> Result<
    BatchTileResult,
    String,
> {
    match drawn {
        Ok((data, rendered)) => Ok(
            BatchTileResult { x: job.x, y: job.y, z: job.z, data, rendered },
        ),
        Err(e) => Err(e),
    }
}

/// The outcome of a job, from what was drawn for it.
pub fn render_single<F>(job: &BatchTileJob<F>, drawn: Result<(Vec<u8>, u32), String>) -> (r: Result<
    BatchTileResult,
    String,
>)
    ensures
        r == single(*job, drawn),
{
    match drawn {
        Ok((data, rendered)) => Ok(
            BatchTileResult { x: job.x, y: job.y, z: job.z, data, rendered },
        ),
        Err(e) => Err(e),
    }
}

/// What a worker does: it draws each job of its range with `draw`, in order.
pub fn run_worker<F, D: Fn(&BatchTileJob<F>) -> Result<(Vec<u8>, u32), String>>(
    jobs: &Vec<BatchTileJob<F>>,
    range: (usize, usize),
    draw: D,
) -> (outcomes: Vec<Result<BatchTileResult, String>>)
    requires
        range.0 <= range.1 <= jobs@.len(),
        forall|job: &BatchTileJob<F>| draw.requires((job,)),
    ensures
        outcomes@.len() == range.1 - range.0,
        forall|k: int|
            0 <= k < outcomes@.len() ==> is_drawn(
                jobs@[range.0 + k],
                draw,
                #[trigger] outcomes@[k],
            ),
{
    let mut outcomes: Vec<Result<BatchTileResult, String>> = Vec::new();
    for i in range.0..range.1
        invariant
            range.0 <= range.1 <= jobs@.len(),
            forall|job: &BatchTileJob<F>| draw.requires((job,)),
            outcomes@.len() == i - range.0,
            forall|k: int|
                0 <= k < outcomes@.len() ==> is_drawn(
                    jobs@[range.0 + k],
                    draw,
                    #[trigger] outcomes@[k],
                ),
    {
        let drawn: Result<(Vec<u8>, u32), String> = draw(&jobs[i]);
        let outcome: Result<BatchTileResult, String> = render_single(&jobs[i], drawn);
        assert(is_drawn(jobs@[i as int], draw, outcome));
        outcomes.push(outcome);
    }
    outcomes
}

/// An outcome is that of a job that was drawn with `draw`.
pub open spec fn is_drawn<F, D: Fn(&BatchTileJob<F>) -> Result<(Vec<u8>, u32), String>>(
    job: BatchTileJob<F>,
    draw: D,
    outcome: Result<BatchTileResult, String>,
) -> bool {
    exists|drawn: Result<(Vec<u8>, u32), String>| #[trigger]
        draw.ensures((&job,), drawn) && outcome == single(job, drawn)
}

/// The outcome of a job that left none.
pub open spec fn outcome(r: Option<Result<BatchTileResult, String>>, out: Result<
    BatchTileResult,
    String,
>) -> bool {
    match r {
        Some(r) => out == r,
        None => out is Err && out->Err_0@ == "No result"@,
    }
}

/// The outcomes of all jobs, numbered.
pub open spec fn is_numbered(
    results: Seq<Option<Result<BatchTileResult, String>>>,
    all: Seq<(usize, Result<BatchTileResult, String>)>,
) -> bool {
    &&& all.len() == results.len()
    &&& forall|i: int|
        0 <= i < all.len() ==> (#[trigger] all[i]).0 == i && outcome(results[i], all[i].1)
}

/// The outcomes of all jobs, numbered. A job that left none has failed.
pub fn render_tiles_parallel(results: Vec<Option<Result<BatchTileResult, String>>>) -> (all: Vec<
    (usize, Result<BatchTileResult, String>),
>)
    ensures
        is_numbered(results@, all@),
{
    let mut rest: Vec<Option<Result<BatchTileResult, String>>> = results;
    let total: usize = rest.len();
    let mut backwards: Vec<(usize, Result<BatchTileResult, String>)> = Vec::new();
    let ghost given = rest@;
    let mut left: usize = total;
    while left > 0
        invariant
            left <= total,
            total == given.len(),
            rest@ == given.take(left as int),
            backwards@.len() == total - left,
            forall|k: int|
                0 <= k < backwards@.len() ==> (#[trigger] backwards@[k]).0 == total - 1 - k
                    && outcome(given[total - 1 - k], backwards@[k].1),
        decreases left,
    {
        match rest.pop() {
            Some(Some(r)) => {
                backwards.push((left - 1, r));
            },
            Some(None) => {
                backwards.push((left - 1, Err("No result".to_owned())));
            },
            None => {},
        }
        left -= 1;
        assert(rest@ =~= given.take(left as int));
    }
    let mut all: Vec<(usize, Result<BatchTileResult, String>)> = Vec::new();
    let ghost back = backwards@;
    assert(back.take(total as int) =~= back);
    let mut i: usize = 0;
    while i < total
        invariant
            i <= total,
            total == given.len(),
            back.len() == total,
            backwards@ == back.take(total - i),
            all@.len() == i,
            forall|k: int|
                0 <= k < back.len() ==> (#[trigger] back[k]).0 == total - 1 - k && outcome(
                    given[total - 1 - k],
                    back[k].1,
                ),
            forall|k: int|
                0 <= k < i ==> (#[trigger] all@[k]).0 == k && outcome(given[k], all@[k].1),
        decreases total - i,
    {
        match backwards.pop() {
            Some(r) => {
                assert(r == back[total - 1 - i]);
                all.push(r);
            },
            None => {},
        }
        i += 1;
        assert(backwards@ =~= back.take(total - i));
    }
    all
}

/// What the workers left: the outcome of each job that is in the range of one of them.
pub open spec fn left_by_workers(
    jobs: nat,
    ranges: Seq<(usize, usize)>,
    outcomes: spec_fn(int) -> Result<BatchTileResult, String>,
) -> Seq<Option<Result<BatchTileResult, String>>> {
    Seq::new(
        jobs,
        |i: int|
            if has_worker(ranges, i) {
                Some(outcomes(i))
            } else {
                None
            },
    )
}

/// A job is in the range of a worker.
pub open spec fn has_worker(ranges: Seq<(usize, usize)>, job: int) -> bool {
    exists|w: int| 0 <= w < ranges.len() && (#[trigger] ranges[w]).0 <= job < ranges[w].1
}

proof fn lemma_has_worker(jobs: int, max_workers: int, ranges: Seq<(usize, usize)>, job: int)
    requires
        is_share_out(jobs, max_workers, ranges),
        0 <= job < jobs,
    ensures
        has_worker(ranges, job),
{
    law_jobs_are_shared_out(jobs, max_workers, job);
    lemma_share(jobs, max_workers);
    let n = share(jobs, max_workers);
    let w = job / n;
    let last = ranges.len() - 1;
    assert(ranges[last].1 == jobs);
    assert(last * n + n >= jobs);
    assert(w <= last) by (nonlinear_arith)
        requires
            w * n <= job,
            job < jobs,
            jobs <= last * n + n,
            n >= 1,
    ;
    assert(ranges[w].0 <= job < ranges[w].1);
}

/// The outcomes of a batch do not depend on the number of workers: each job has its own
/// outcome, in the order of the jobs, whatever became of the others. `drawn` is what is
/// drawn for each job.
pub proof fn law_workers_do_not_matter<F>(
    jobs: Seq<BatchTileJob<F>>,
    drawn: spec_fn(int) -> Result<(Vec<u8>, u32), String>,
    w1: int,
    w2: int,
    ranges1: Seq<(usize, usize)>,
    ranges2: Seq<(usize, usize)>,
    all1: Seq<(usize, Result<BatchTileResult, String>)>,
    all2: Seq<(usize, Result<BatchTileResult, String>)>,
)
    requires
        is_share_out(jobs.len() as int, w1, ranges1),
        is_share_out(jobs.len() as int, w2, ranges2),
        is_numbered(
            left_by_workers(jobs.len(), ranges1, |i: int| single(jobs[i], drawn(i))),
            all1,
        ),
        is_numbered(
            left_by_workers(jobs.len(), ranges2, |i: int| single(jobs[i], drawn(i))),
            all2,
        ),
    ensures
        all1 == all2,
        all1.len() == jobs.len(),
        forall|i: int|
            0 <= i < all1.len() ==> (#[trigger] all1[i]).0 == i && all1[i].1 == single(
                jobs[i],
                drawn(i),
            ),
{
    assert forall|i: int| 0 <= i < jobs.len() implies (#[trigger] all1[i]).0 == i && all1[i].1
        == single(jobs[i], drawn(i)) && all2[i].0 == i && all2[i].1 == single(
        jobs[i],
        drawn(i),
    ) by {
        lemma_has_worker(jobs.len() as int, w1, ranges1, i);
        lemma_has_worker(jobs.len() as int, w2, ranges2, i);
        assert(all2[i].0 == i);
    }
    assert(all1 =~= all2);
}

// ─── What holds of a batch ───

/// Jobs are shared out in order, without a gap, and none twice: the first worker starts with
/// the first job, each other one where the one before it ends, and the last ends with the last
/// job. Each worker has a job, and all but the last have equally many: as few as do for the
/// number of workers.
pub proof fn law_workers_share_the_jobs(
    jobs: usize,
    max_workers: usize,
    ranges: Vec<(usize, usize)>,
    w: int,
)
    requires
        call_ensures(worker_ranges, (jobs, max_workers), ranges),
    ensures
        jobs == 0 <==> ranges@.len() == 0,
        jobs > 0 ==> ranges@[0].0 == 0 && ranges@[ranges@.len() - 1].1 == jobs,
        0 <= w < ranges@.len() ==> ranges@[w].0 < ranges@[w].1,
        0 <= w < ranges@.len() - 1 ==> ranges@[w].1 == ranges@[w + 1].0,
        0 <= w < ranges@.len() - 1 ==> ranges@[w].1 - ranges@[w].0 == ranges@[0].1
            - ranges@[0].0,
        0 < ranges@.len() && 1 < max_workers ==> ranges@.len() <= max_workers,
        0 < ranges@.len() && max_workers <= 1 ==> ranges@.len() == 1,
        0 < ranges@.len() && 1 < max_workers <= jobs ==> (ranges@[0].1 - ranges@[0].0 - 1)
            * max_workers < jobs,
        0 < ranges@.len() && jobs <= max_workers ==> ranges@[0].1 == 1,
{
    if jobs > 0 {
        lemma_share(jobs as int, max_workers as int);
        let n = share(jobs as int, max_workers as int);
        let k = worker_count(jobs as int, max_workers as int);
        lemma_rounded_up(jobs as int, k);
        vstd::arithmetic::div_mod::lemma_fundamental_div_mod(jobs as int, k);
        vstd::arithmetic::div_mod::lemma_mod_bound(jobs as int, k);
        let q = jobs as int / k;
        assert(0 * n == 0);
        assert(ranges@[0].0 == 0);
        assert((w + 1) * n == w * n + n) by (nonlinear_arith);
        if 0 <= w < ranges@.len() {
            assert(ranges@[w].0 == w * n);
        }
        if 0 <= w < ranges@.len() - 1 {
            assert(ranges@[w + 1].0 == (w + 1) * n);
            assert(ranges@[0].0 == 0);
            if w > 0 {
                assert(w * n >= n) by (nonlinear_arith)
                    requires
                        w >= 1,
                        n >= 1,
                ;
            }
        }
        if k == jobs {
            vstd::arithmetic::div_mod::lemma_div_by_self(k);
            vstd::arithmetic::div_mod::lemma_mod_self_0(k);
            assert(n == 1);
        }
        if 1 < max_workers <= jobs {
            assert(k == max_workers);
            if jobs as int % k == 0 {
                assert((q - 1) * k == k * q - k) by (nonlinear_arith);
                assert((n - 1) * k < jobs);
            } else {
                assert(q * k == k * q) by (nonlinear_arith);
                assert((n - 1) * k < jobs);
            }
            assert(ranges@[0].1 - ranges@[0].0 <= n);
            let m = ranges@[0].1 - ranges@[0].0;
            assert((m - 1) * k <= (n - 1) * k) by (nonlinear_arith)
                requires
                    m <= n,
                    k >= 1,
            ;
        }
    }
}

/// The outcome of a job has the zoom level, the column and the row of the job, and the bytes
/// and the pixels that were drawn for it. An error stays the same error.
pub proof fn law_outcome_of_a_job<F>(
    job: &BatchTileJob<F>,
    drawn: Result<(Vec<u8>, u32), String>,
    r: Result<BatchTileResult, String>,
)
    requires
        call_ensures(render_single::<F>, (job, drawn), r),
    ensures
        drawn is Ok <==> r is Ok,
        drawn is Ok ==> r->Ok_0.z == job.z && r->Ok_0.x == job.x && r->Ok_0.y == job.y
            && r->Ok_0.data@ == drawn->Ok_0.0@ && r->Ok_0.rendered == drawn->Ok_0.1,
        drawn is Err ==> r->Err_0@ == drawn->Err_0@,
{
}

/// A worker has an outcome for each job of its range, in order, and each is of what was drawn
/// for its own job.
pub proof fn law_worker_draws_its_jobs<
    F,
    D: Fn(&BatchTileJob<F>) -> Result<(Vec<u8>, u32), String>,
>(
    jobs: &Vec<BatchTileJob<F>>,
    range: (usize, usize),
    draw: D,
    outcomes: Vec<Result<BatchTileResult, String>>,
    k: int,
)
    requires
        call_ensures(run_worker::<F, D>, (jobs, range, draw), outcomes),
        range.0 <= range.1 <= jobs@.len(),
        0 <= k < range.1 - range.0,
    ensures
        outcomes@.len() == range.1 - range.0,
        outcomes@[k] is Ok ==> ({
            let (job, tile) = (jobs@[range.0 + k], outcomes@[k]->Ok_0);
            &&& tile.z == job.z
            &&& tile.x == job.x
            &&& tile.y == job.y
            &&& draw.ensures((&job,), Ok((tile.data, tile.rendered)))
        }),
        outcomes@[k] is Err ==> draw.ensures(
            (&jobs@[range.0 + k],),
            Err(outcomes@[k]->Err_0),
        ),
{
    let job = jobs@[range.0 + k];
    assert(is_drawn(job, draw, outcomes@[k]));
    let drawn = choose|drawn: Result<(Vec<u8>, u32), String>| #[trigger]
        draw.ensures((&job,), drawn) && outcomes@[k] == single(job, drawn);
    match drawn {
        Ok((data, rendered)) => {
            assert(outcomes@[k]->Ok_0.data == data);
        },
        Err(e) => {},
    }
}

/// The outcomes of a batch are numbered in the order of the jobs; a job without an outcome has
/// failed.
pub proof fn law_outcomes_are_numbered(
    results: Vec<Option<Result<BatchTileResult, String>>>,
    all: Vec<(usize, Result<BatchTileResult, String>)>,
    i: int,
)
    requires
        call_ensures(render_tiles_parallel, (results,), all),
        0 <= i < results@.len(),
    ensures
        all@.len() == results@.len(),
        all@[i].0 == i,
        results@[i] is Some ==> all@[i].1 == results@[i]->Some_0,
        results@[i] is None ==> all@[i].1 is Err && all@[i].1->Err_0@ == "No result"@,
{
    assert(outcome(results@[i], all@[i].1));
}

} // verus!
